//! A flat logical vector over an immutable two-level page directory.

use crate::arith::{saturated, saturating_product, spec_min};
use crate::shared::{clone_faithful, detach, make_mut, same_allocation, share, SharedFlat};
use std::sync::Arc;
use vstd::layout::size_of;
use vstd::prelude::*;

verus! {

/// Bytes of one value page.
pub const PAGE_BYTES: usize = 16 * 1024;

const MAX_PAGE_ELEMENTS: usize = 4_096;

/// Pages that one leaf of the directory holds.
pub const PAGES_PER_LEAF: usize = 256;

/// Values of `T` that one page holds: as many as fit its bytes, at least one and at most 4096.
pub open spec fn spec_page_capacity<T>() -> int {
    let width: int = if size_of::<T>() == 0 {
        1
    } else {
        size_of::<T>() as int
    };
    let fitting = PAGE_BYTES as int / width;
    if fitting < 1 {
        1
    } else if fitting > 4096 {
        4096
    } else {
        fitting
    }
}

pub fn page_capacity<T>() -> (capacity: usize)
    ensures
        capacity == spec_page_capacity::<T>(),
        1 <= capacity <= 4096,
{
    let bytes: usize = core::mem::size_of::<T>();
    let width: usize = if bytes == 0 {
        1
    } else {
        bytes
    };
    let fitting: usize = PAGE_BYTES / width;
    if fitting < 1 {
        1
    } else if fitting > MAX_PAGE_ELEMENTS {
        MAX_PAGE_ELEMENTS
    } else {
        fitting
    }
}

enum ValuePage<T> {
    Owned(Vec<T>),
    Shared(SharedFlat<T>),
}

impl<T> View for ValuePage<T> {
    type V = Seq<T>;

    closed spec fn view(&self) -> Seq<T> {
        match self {
            ValuePage::Owned(values) => values@,
            ValuePage::Shared(values) => values@,
        }
    }
}

impl<T: Clone> Clone for ValuePage<T> {
    fn clone(&self) -> (copy: Self)
        ensures
            clone_faithful::<T>() ==> copy@ == self@,
    {
        match self {
            ValuePage::Owned(values) => {
                let copy = values.clone();
                assert(clone_faithful::<T>() ==> copy@ =~= values@);
                ValuePage::Owned(copy)
            },
            ValuePage::Shared(values) => ValuePage::Shared(values.clone()),
        }
    }
}

impl<T> ValuePage<T> {
    fn len(&self) -> (len: usize)
        ensures
            len == self@.len(),
    {
        match self {
            ValuePage::Owned(values) => values.len(),
            ValuePage::Shared(values) => values.len(),
        }
    }

    fn as_slice(&self) -> (values: &[T])
        ensures
            values@ == self@,
    {
        match self {
            ValuePage::Owned(values) => values.as_slice(),
            ValuePage::Shared(values) => values.as_slice(),
        }
    }
}

impl<T: Clone> ValuePage<T> {
    /// One value of the page. A page over shared values is first copied into values of its own.
    fn index_mut(&mut self, index: usize) -> (slot: &mut T)
        requires
            clone_faithful::<T>(),
            index < old(self)@.len(),
        ensures
            *slot == old(self)@[index as int],
            final(self)@ == old(self)@.update(index as int, *final(slot)),
            *final(self) is Owned,
    {
        if let ValuePage::Shared(values) = self {
            *self = ValuePage::Owned(detach(values.as_slice()));
        }
        match self {
            ValuePage::Owned(values) => &mut values[index],
            ValuePage::Shared(values) => {
                proof {
                    assert(false);
                }
                vstd::pervasive::unreached()
            },
        }
    }

    fn push(&mut self, value: T)
        requires
            clone_faithful::<T>(),
        ensures
            final(self)@ == old(self)@.push(value),
            *final(self) is Owned,
    {
        match self {
            ValuePage::Owned(values) => {
                values.push(value);
            },
            ValuePage::Shared(values) => {
                let mut detached = detach(values.as_slice());
                detached.push(value);
                *self = ValuePage::Owned(detached);
            },
        }
    }
}

struct PageLeaf<T> {
    pages: Vec<Arc<ValuePage<T>>>,
    len: usize,
}

impl<T> PageLeaf<T> {
    pub closed spec fn alike(&self, other: &Self) -> bool {
        &&& self.pages@ == other.pages@
        &&& self.len == other.len
    }
}

impl<T> Clone for PageLeaf<T> {
    fn clone(&self) -> (copy: Self)
        ensures
            copy.alike(self),
    {
        let mut pages: Vec<Arc<ValuePage<T>>> = Vec::with_capacity(self.pages.len());
        for index in 0..self.pages.len()
            invariant
                pages@ == self.pages@.subrange(0, index as int),
        {
            pages.push(share(&self.pages[index]));
        }
        assert(pages@ =~= self.pages@);
        PageLeaf { pages, len: self.len }
    }
}

// Retired leading leaves become `None` instead of shifting the complete directory. This releases
// their value pages in bounded chunks while every remaining leaf keeps its place.
struct PageDirectory<T> {
    leaves: Vec<Option<Arc<PageLeaf<T>>>>,
    first_leaf: usize,
    len: usize,
}

impl<T> Clone for PageDirectory<T> {
    fn clone(&self) -> (copy: Self)
        ensures
            copy.alike(self),
    {
        let mut leaves: Vec<Option<Arc<PageLeaf<T>>>> = Vec::with_capacity(self.leaves.len());
        for index in 0..self.leaves.len()
            invariant
                leaves@ == self.leaves@.subrange(0, index as int),
        {
            leaves.push(
                match &self.leaves[index] {
                    Some(leaf) => Some(share(leaf)),
                    None => None,
                },
            );
        }
        assert(leaves@ =~= self.leaves@);
        PageDirectory { leaves, first_leaf: self.first_leaf, len: self.len }
    }
}

impl<T> PageDirectory<T> {
    pub closed spec fn alike(&self, other: &Self) -> bool {
        &&& self.leaves@ == other.leaves@
        &&& self.first_leaf == other.first_leaf
        &&& self.len == other.len
    }

    spec fn leaf_count(&self) -> int {
        self.leaves.len() - self.first_leaf
    }

    spec fn slot(&self, leaf: int) -> Option<Arc<PageLeaf<T>>> {
        self.leaves@[self.first_leaf + leaf]
    }

    spec fn leaf(&self, leaf: int) -> PageLeaf<T> {
        *self.slot(leaf)->Some_0
    }

    spec fn page_count(&self) -> int {
        if self.leaf_count() == 0 {
            0
        } else {
            256 * (self.leaf_count() - 1) + self.leaf(self.leaf_count() - 1).pages.len()
        }
    }

    spec fn page(&self, page: int) -> Seq<T> {
        self.leaf(page / 256).pages@[page % 256]@
    }

    /// The page reads an allocation that was handed in.
    spec fn borrows(&self, page: int) -> bool {
        *self.leaf(page / 256).pages@[page % 256] is Shared
    }

    /// Every leaf but the last is full, every page but the last is full, and the lengths that the
    /// directory and its leaves keep are those of their pages.
    spec fn wf(&self) -> bool {
        let capacity = spec_page_capacity::<T>();
        let leaves = self.leaf_count();
        let pages = self.page_count();
        &&& self.first_leaf <= self.leaves.len()
        &&& leaves == 0 ==> self.leaves.len() == 0 && self.len == 0
        &&& leaves > 0 ==> (pages - 1) * capacity < self.len <= pages * capacity
        &&& forall|i: int|
            0 <= i < leaves ==> {
                let slot = #[trigger] self.slot(i);
                &&& slot is Some
                &&& 1 <= slot->Some_0.pages.len() <= 256
                &&& i < leaves - 1 ==> slot->Some_0.pages.len() == 256
                &&& slot->Some_0.len == if i < leaves - 1 {
                    256 * capacity
                } else {
                    self.len - (leaves - 1) * (256 * capacity)
                }
            }
        &&& forall|q: int|
            0 <= q < pages ==> (#[trigger] self.page(q)).len() == if q < pages - 1 {
                capacity
            } else {
                self.len - (pages - 1) * capacity
            }
    }

    spec fn values(&self) -> Seq<T> {
        Seq::new(
            self.len as nat,
            |k: int|
                self.page(k / spec_page_capacity::<T>())[k % spec_page_capacity::<T>()],
        )
    }

    /// Position `k` lies in an existing page, inside that page.
    proof fn lemma_location(&self, k: int)
        requires
            self.wf(),
            0 <= k < self.len,
        ensures
            0 <= k / spec_page_capacity::<T>() < self.page_count(),
            0 <= k % spec_page_capacity::<T>() < self.page(k / spec_page_capacity::<T>()).len(),
            0 <= k / spec_page_capacity::<T>() / 256 < self.leaf_count(),
            0 <= k / spec_page_capacity::<T>() % 256 < self.leaf(
                k / spec_page_capacity::<T>() / 256,
            ).pages.len(),
            self.slot(k / spec_page_capacity::<T>() / 256) is Some,
    {
        let capacity = spec_page_capacity::<T>();
        lemma_capacity::<T>();
        let page = k / capacity;
        let pages = self.page_count();
        assert(self.leaf_count() > 0);
        lemma_page_of(k, self.len as int, pages, capacity);
        let slot = self.slot(page / 256);
        assert(self.page(page).len() > 0 || true);
        let last = self.slot(self.leaf_count() - 1);
    }
}

impl<T: Clone> PageDirectory<T> {
    /// One value of the directory, on a page and a leaf that no other generation holds.
    fn value_mut(&mut self, index: usize) -> (value: &mut T)
        requires
            old(self).wf(),
            clone_faithful::<T>(),
            index < old(self).len,
        ensures
            *value == old(self).values()[index as int],
            final(self).wf(),
            final(self).values() == old(self).values().update(index as int, *final(value)),
            final(self).first_leaf == old(self).first_leaf,
            final(self).len == old(self).len,
            forall|q: int|
                0 <= q < old(self).page_count() ==> #[trigger] final(self).borrows(q) == (q != index
                    as int / spec_page_capacity::<T>() && old(self).borrows(q)),
            final(self).page_count() == old(self).page_count(),
    {
        let (leaf_index, page_index, offset) = PagedVec::<T>::location(index);
        let ghost before = *self;
        proof {
            before.lemma_location(index as int);
        }
        let physical: usize = self.first_leaf + leaf_index;
        let slot = &mut self.leaves[physical];
        match slot {
            Some(leaf) => {
                let leaf = make_mut(leaf);
                let page = make_mut(&mut leaf.pages[page_index]);
                let value = page.index_mut(offset);
                proof {
                    lemma_point_update(before, *after_borrow(self), index as int, *final(value));
                }
                value
            },
            None => {
                proof {
                    assert(before.slot(leaf_index as int) is Some);
                    assert(false);
                }
                vstd::pervasive::unreached()
            },
        }
    }
}

/// A directory and its clone hold the same leaves, so they read alike.
proof fn lemma_alike<T>(before: PageDirectory<T>, after: PageDirectory<T>)
    requires
        before.wf(),
        after == before || after.alike(&before),
    ensures
        after.wf(),
        after.values() == before.values(),
        after.len == before.len,
        after.first_leaf == before.first_leaf,
        after.leaves@ == before.leaves@,
        after.page_count() == before.page_count(),
        after.leaf_count() == before.leaf_count(),
        forall|i: int| #[trigger] after.slot(i) == before.slot(i),
        forall|q: int| #[trigger] after.page(q) == before.page(q),
        forall|q: int| #[trigger] after.borrows(q) == before.borrows(q),
{
    assert forall|i: int| #[trigger] after.slot(i) == before.slot(i) by {}
    assert forall|q: int| #[trigger] after.page(q) == before.page(q) by {}
    assert forall|q: int| #[trigger] after.borrows(q) == before.borrows(q) by {
        assert(after.slot(q / 256) == before.slot(q / 256));
    }
    assert forall|i: int| 0 <= i < after.leaf_count() implies {
        let slot = #[trigger] after.slot(i);
        &&& slot is Some
        &&& 1 <= slot->Some_0.pages.len() <= 256
    } by {
        let slot = before.slot(i);
    }
    assert(after.values() =~= before.values());
}

/// What the tail of a directory looks like.
proof fn lemma_last_page<T>(directory: PageDirectory<T>)
    requires
        directory.wf(),
    ensures
        directory.leaf_count() == 0 ==> directory.leaves.len() == 0,
        directory.leaf_count() > 0 ==> {
            let slot = directory.leaves@[directory.leaves.len() - 1];
            let pages = directory.page_count();
            &&& slot == directory.slot(directory.leaf_count() - 1)
            &&& slot is Some
            &&& 1 <= slot->Some_0.pages.len() <= 256
            &&& slot->Some_0.pages@[slot->Some_0.pages.len() - 1]@ == directory.page(pages - 1)
            &&& 1 <= directory.page(pages - 1).len() <= spec_page_capacity::<T>()
            &&& directory.page(pages - 1).len() == directory.len - (pages - 1)
                * spec_page_capacity::<T>()
            &&& slot->Some_0.len <= 256 * spec_page_capacity::<T>()
        },
{
    lemma_capacity::<T>();
    if directory.leaf_count() > 0 {
        let leaves = directory.leaf_count();
        let slot = directory.slot(leaves - 1);
        let pages = directory.page_count();
        let capacity = spec_page_capacity::<T>();
        let page = directory.page(pages - 1);
        assert((pages - 1) / 256 == leaves - 1);
        assert(pages * capacity == (pages - 1) * capacity + capacity) by (nonlinear_arith);
        assert(pages * capacity <= 256 * leaves * capacity) by (nonlinear_arith)
            requires
                pages <= 256 * leaves,
                capacity > 0,
        ;
        assert(256 * leaves * capacity == (leaves - 1) * (256 * capacity) + 256 * capacity)
            by (nonlinear_arith);
    }
}

/// A directory of full pages that got one more page at its end, on a new leaf where the last one was
/// full.
proof fn lemma_page_added<T>(before: PageDirectory<T>, after: PageDirectory<T>, page: Seq<T>)
    requires
        before.wf(),
        before.len == before.page_count() * spec_page_capacity::<T>(),
        1 <= page.len() <= spec_page_capacity::<T>(),
        after.len == before.len + page.len(),
        after.first_leaf == before.first_leaf,
        ({
            let full_leaf = before.leaf_count() == 0 || before.leaf(
                before.leaf_count() - 1,
            ).pages.len() == 256;
            let leaf = after.leaf_count() - 1;
            &&& after.leaf_count() == before.leaf_count() + if full_leaf {
                1int
            } else {
                0
            }
            &&& forall|i: int| 0 <= i < leaf ==> #[trigger] after.slot(i) == before.slot(i)
            &&& after.slot(leaf) is Some
            &&& if full_leaf {
                &&& after.leaf(leaf).len == page.len()
                &&& after.leaf(leaf).pages.len() == 1
                &&& after.leaf(leaf).pages@[0]@ == page
            } else {
                let old_pages = before.leaf(leaf).pages@;
                &&& after.leaf(leaf).len == before.leaf(leaf).len + page.len()
                &&& after.leaf(leaf).pages@.len() == old_pages.len() + 1
                &&& forall|j: int|
                    0 <= j < old_pages.len() ==> after.leaf(leaf).pages@[j] == old_pages[j]
                &&& after.leaf(leaf).pages@[old_pages.len() as int]@ == page
            }
        }),
    ensures
        after.wf(),
        after.values() == before.values() + page,
        after.page_count() == before.page_count() + 1,
        forall|q: int|
            0 <= q < before.page_count() ==> #[trigger] after.borrows(q) == before.borrows(q),
        after.borrows(before.page_count()) == (*after.leaf(
            after.leaf_count() - 1,
        ).pages@.last() is Shared),
{
    let capacity = spec_page_capacity::<T>();
    lemma_capacity::<T>();
    lemma_last_page(before);
    let pages = before.page_count();
    let leaves = before.leaf_count();
    let last_slot = before.slot(leaves - 1);
    assert(pages * capacity == (pages - 1) * capacity + capacity) by (nonlinear_arith);
    assert((pages + 1) * capacity == pages * capacity + capacity) by (nonlinear_arith);
    assert(0 * capacity == 0) by (nonlinear_arith);
    assert(after.page_count() == pages + 1);
    assert forall|q: int| 0 <= q < after.page_count() implies #[trigger] after.page(q) == if q
        == pages {
        page
    } else {
        before.page(q)
    } by {
        let slot = after.slot(q / 256);
        let old_slot = before.slot(q / 256);
    }
    assert forall|q: int| 0 <= q < after.page_count() implies (#[trigger] after.page(q)).len()
        == if q < after.page_count() - 1 {
        capacity
    } else {
        after.len - (after.page_count() - 1) * capacity
    } by {
        let old_page = before.page(q);
    }
    assert(leaves * (256 * capacity) == (leaves - 1) * (256 * capacity) + 256 * capacity)
        by (nonlinear_arith);
    if leaves > 0 && before.leaf(leaves - 1).pages.len() == 256 {
        assert(pages == 256 * leaves);
        assert(256 * leaves * capacity == leaves * (256 * capacity)) by (nonlinear_arith);
    }
    assert forall|i: int| 0 <= i < after.leaf_count() implies {
        let slot = #[trigger] after.slot(i);
        &&& slot is Some
        &&& 1 <= slot->Some_0.pages.len() <= 256
        &&& i < after.leaf_count() - 1 ==> slot->Some_0.pages.len() == 256
        &&& slot->Some_0.len == if i < after.leaf_count() - 1 {
            256 * capacity
        } else {
            after.len - (after.leaf_count() - 1) * (256 * capacity)
        }
    } by {
        let slot = before.slot(i);
    }
    assert(after.wf());
    assert forall|q: int| 0 <= q < pages implies #[trigger] after.borrows(q) == before.borrows(
        q,
    ) by {
        let slot = after.slot(q / 256);
        let old_slot = before.slot(q / 256);
    }
    let joined = before.values() + page;
    assert forall|k: int| 0 <= k < after.len implies after.values()[k] == joined[k] by {
        after.lemma_location(k);
        if k < before.len {
            before.lemma_location(k);
        } else {
            lemma_page_unique(pages, k - before.len, capacity);
        }
    }
    assert(after.values() =~= joined);
}

/// A directory whose last page had room and got one more value.
proof fn lemma_appended<T>(before: PageDirectory<T>, after: PageDirectory<T>, value: T)
    requires
        before.wf(),
        before.len < usize::MAX,
        before.leaf_count() > 0,
        before.page(before.page_count() - 1).len() < spec_page_capacity::<T>(),
        after.len == before.len + 1,
        after.first_leaf == before.first_leaf,
        after.leaf_count() == before.leaf_count(),
        ({
            let leaf = after.leaf_count() - 1;
            let old_pages = before.leaf(leaf).pages@;
            &&& forall|i: int| 0 <= i < leaf ==> #[trigger] after.slot(i) == before.slot(i)
            &&& after.slot(leaf) is Some
            &&& after.leaf(leaf).len == before.leaf(leaf).len + 1
            &&& after.leaf(leaf).pages@.len() == old_pages.len()
            &&& forall|j: int|
                0 <= j < old_pages.len() - 1 ==> after.leaf(leaf).pages@[j] == old_pages[j]
            &&& after.leaf(leaf).pages@.last()@ == old_pages.last()@.push(value)
            &&& *after.leaf(leaf).pages@.last() is Owned
        }),
    ensures
        after.wf(),
        after.values() == before.values().push(value),
        after.page_count() == before.page_count(),
        forall|q: int|
            0 <= q < before.page_count() ==> #[trigger] after.borrows(q) == (q
                != before.page_count() - 1 && before.borrows(q)),
{
    let capacity = spec_page_capacity::<T>();
    lemma_capacity::<T>();
    lemma_last_page(before);
    let pages = before.page_count();
    let leaves = before.leaf_count();
    let last_slot = before.slot(leaves - 1);
    assert(pages * capacity == (pages - 1) * capacity + capacity) by (nonlinear_arith);
    assert(after.page_count() == pages);
    assert forall|q: int| 0 <= q < pages implies #[trigger] after.page(q) == if q == pages - 1 {
        before.page(q).push(value)
    } else {
        before.page(q)
    } by {
        let slot = after.slot(q / 256);
        let old_slot = before.slot(q / 256);
    }
    assert forall|q: int| 0 <= q < pages implies (#[trigger] after.page(q)).len() == if q < pages
        - 1 {
        capacity
    } else {
        after.len - (pages - 1) * capacity
    } by {
        let old_page = before.page(q);
    }
    assert forall|i: int| 0 <= i < leaves implies {
        let slot = #[trigger] after.slot(i);
        &&& slot is Some
        &&& 1 <= slot->Some_0.pages.len() <= 256
        &&& i < leaves - 1 ==> slot->Some_0.pages.len() == 256
        &&& slot->Some_0.len == if i < leaves - 1 {
            256 * capacity
        } else {
            after.len - (leaves - 1) * (256 * capacity)
        }
    } by {
        let slot = before.slot(i);
    }
    assert(after.wf());
    assert forall|q: int| 0 <= q < pages implies #[trigger] after.borrows(q) == (q != pages - 1
        && before.borrows(q)) by {
        let slot = after.slot(q / 256);
        let old_slot = before.slot(q / 256);
    }
    let joined = before.values().push(value);
    assert forall|k: int| 0 <= k < after.len implies after.values()[k] == joined[k] by {
        after.lemma_location(k);
        if k < before.len {
            before.lemma_location(k);
        } else {
            lemma_page_unique(pages - 1, before.len - (pages - 1) * capacity, capacity);
        }
    }
    assert(after.values() =~= joined);
}

/// Values that go when every complete leading leaf covered by `elements` goes: all of them when all
/// are covered, else a whole number of full leaves.
pub open spec fn retired_len<T>(len: int, elements: int) -> int {
    if elements >= len {
        len
    } else {
        (elements / (256 * spec_page_capacity::<T>())) * (256 * spec_page_capacity::<T>())
    }
}

/// A directory whose first `count` leaves were given up, others being left.
proof fn lemma_retired<T>(before: PageDirectory<T>, after: PageDirectory<T>, count: int)
    requires
        before.wf(),
        0 <= count < before.leaf_count(),
        after.first_leaf == before.first_leaf + count,
        after.leaves.len() == before.leaves.len(),
        after.len == before.len - count * (256 * spec_page_capacity::<T>()),
        forall|i: int|
            count <= i < before.leaf_count() ==> after.leaves@[before.first_leaf + i]
                == #[trigger] before.slot(i),
    ensures
        after.wf(),
        after.values() == before.values().subrange(
            count * (256 * spec_page_capacity::<T>()),
            before.len as int,
        ),
        after.page_count() == before.page_count() - 256 * count,
        forall|q: int|
            0 <= q < after.page_count() ==> #[trigger] after.borrows(q) == before.borrows(
                q + 256 * count,
            ),
{
    let capacity = spec_page_capacity::<T>();
    lemma_capacity::<T>();
    let gone = count * (256 * capacity);
    let leaves = before.leaf_count();
    let pages = before.page_count();
    assert(leaves - count == after.leaf_count());
    assert forall|i: int| 0 <= i < leaves - count implies #[trigger] after.slot(i) == before.slot(
        i + count,
    ) by {
        let slot = before.slot(i + count);
    }
    let last_slot = after.slot(leaves - count - 1);
    assert(after.page_count() == pages - 256 * count);
    assert forall|q: int| 0 <= q < after.page_count() implies #[trigger] after.page(q)
        == before.page(q + 256 * count) by {
        let slot = after.slot(q / 256);
        let old_slot = before.slot((q + 256 * count) / 256);
        assert((q + 256 * count) / 256 == q / 256 + count);
        assert((q + 256 * count) % 256 == q % 256);
    }
    assert(gone == 256 * count * capacity) by (nonlinear_arith)
        requires
            gone == count * (256 * capacity),
    ;
    assert((pages - 256 * count) * capacity == pages * capacity - 256 * count * capacity)
        by (nonlinear_arith);
    assert((pages - 256 * count - 1) * capacity == (pages - 1) * capacity - 256 * count * capacity)
        by (nonlinear_arith);
    assert((leaves - count - 1) * (256 * capacity) == (leaves - 1) * (256 * capacity) - count * (256
        * capacity)) by (nonlinear_arith);
    assert(0 <= gone) by (nonlinear_arith)
        requires
            gone == count * (256 * capacity),
            count >= 0,
            capacity > 0,
    ;
    assert forall|q: int| 0 <= q < after.page_count() implies (#[trigger] after.page(q)).len()
        == if q < after.page_count() - 1 {
        capacity
    } else {
        after.len - (after.page_count() - 1) * capacity
    } by {
        let old_page = before.page(q + 256 * count);
    }
    assert forall|i: int| 0 <= i < after.leaf_count() implies {
        let slot = #[trigger] after.slot(i);
        &&& slot is Some
        &&& 1 <= slot->Some_0.pages.len() <= 256
        &&& i < after.leaf_count() - 1 ==> slot->Some_0.pages.len() == 256
        &&& slot->Some_0.len == if i < after.leaf_count() - 1 {
            256 * capacity
        } else {
            after.len - (after.leaf_count() - 1) * (256 * capacity)
        }
    } by {
        let slot = before.slot(i + count);
    }
    assert(after.wf());
    assert forall|q: int| 0 <= q < after.page_count() implies #[trigger] after.borrows(q)
        == before.borrows(q + 256 * count) by {
        let slot = after.slot(q / 256);
        let old_slot = before.slot((q + 256 * count) / 256);
        assert((q + 256 * count) / 256 == q / 256 + count);
        assert((q + 256 * count) % 256 == q % 256);
    }
    let rest = before.values().subrange(gone, before.len as int);
    assert forall|k: int| 0 <= k < after.len implies after.values()[k] == rest[k] by {
        after.lemma_location(k);
        before.lemma_location(k + gone);
        lemma_page_of(k, after.len as int, after.page_count(), capacity);
        let page = k / capacity;
        let offset = k % capacity;
        assert((page + 256 * count) * capacity + offset == k + gone) by (nonlinear_arith)
            requires
                k == page * capacity + offset,
                gone == 256 * count * capacity,
        ;
        lemma_page_unique(page + 256 * count, offset, capacity);
    }
    assert(after.values() =~= rest);
}

/// Writing one value of one page keeps the directory in shape and changes that position alone.
proof fn lemma_point_update<T>(
    before: PageDirectory<T>,
    after: PageDirectory<T>,
    index: int,
    value: T,
)
    requires
        before.wf(),
        0 <= index < before.len,
        after.len == before.len,
        after.first_leaf == before.first_leaf,
        after.leaves.len() == before.leaves.len(),
        ({
            let page = index / spec_page_capacity::<T>();
            let leaf = page / 256;
            let old_leaf = before.leaf(leaf);
            let new_leaf = after.leaf(leaf);
            &&& forall|i: int|
                0 <= i < before.leaf_count() && i != leaf ==> #[trigger] after.slot(i)
                    == before.slot(i)
            &&& after.slot(leaf) is Some
            &&& new_leaf.len == old_leaf.len
            &&& new_leaf.pages.len() == old_leaf.pages.len()
            &&& forall|j: int|
                0 <= j < old_leaf.pages.len() && j != page % 256 ==> new_leaf.pages@[j]
                    == old_leaf.pages@[j]
            &&& new_leaf.pages@[page % 256]@ == old_leaf.pages@[page % 256]@.update(
                index % spec_page_capacity::<T>(),
                value,
            )
            &&& *new_leaf.pages@[page % 256] is Owned
        }),
    ensures
        after.wf(),
        after.values() == before.values().update(index, value),
        after.page_count() == before.page_count(),
        forall|q: int|
            0 <= q < before.page_count() ==> #[trigger] after.borrows(q) == (q != index
                / spec_page_capacity::<T>() && before.borrows(q)),
{
    let capacity = spec_page_capacity::<T>();
    let page = index / capacity;
    lemma_capacity::<T>();
    before.lemma_location(index);
    assert forall|i: int| 0 <= i < before.leaf_count() implies #[trigger] after.slot(i) is Some
        && after.leaf(i).pages.len() == before.leaf(i).pages.len() && after.leaf(i).len
        == before.leaf(i).len by {
        let slot = before.slot(i);
    }
    let last = after.slot(after.leaf_count() - 1);
    assert(after.page_count() == before.page_count());
    assert forall|q: int| 0 <= q < before.page_count() implies #[trigger] after.page(q) == if q
        == page {
        before.page(q).update(index % capacity, value)
    } else {
        before.page(q)
    } by {
        let slot = after.slot(q / 256);
        let old_slot = before.slot(q / 256);
    }
    assert forall|q: int| 0 <= q < after.page_count() implies (#[trigger] after.page(q)).len()
        == before.page(q).len() by {}
    assert forall|q: int| 0 <= q < before.page_count() implies #[trigger] after.borrows(q) == (q
        != page && before.borrows(q)) by {
        let slot = after.slot(q / 256);
        let old_slot = before.slot(q / 256);
    }
    assert forall|i: int| 0 <= i < after.leaf_count() implies {
        let slot = #[trigger] after.slot(i);
        &&& slot is Some
        &&& 1 <= slot->Some_0.pages.len() <= 256
    } by {
        let old_slot = before.slot(i);
    }
    assert forall|k: int| 0 <= k < before.len implies after.values()[k] == before.values().update(
        index,
        value,
    )[k] by {
        before.lemma_location(k);
        if k / capacity == page && k % capacity == index % capacity {
            vstd::arithmetic::div_mod::lemma_fundamental_div_mod(k, capacity);
            vstd::arithmetic::div_mod::lemma_fundamental_div_mod(index, capacity);
        }
    }
    assert(after.values() =~= before.values().update(index, value));
}

proof fn lemma_capacity<T>()
    ensures
        1 <= spec_page_capacity::<T>() <= 4096,
{
}

proof fn lemma_page_of(k: int, len: int, pages: int, capacity: int)
    requires
        0 <= k < len,
        capacity > 0,
        (pages - 1) * capacity < len <= pages * capacity,
    ensures
        0 <= k / capacity < pages,
        0 <= k % capacity < capacity,
        k / capacity == pages - 1 ==> k % capacity < len - (pages - 1) * capacity,
        k == (k / capacity) * capacity + k % capacity,
{
    vstd::arithmetic::div_mod::lemma_fundamental_div_mod(k, capacity);
    let page = k / capacity;
    assert(capacity * page == page * capacity) by (nonlinear_arith);
    assert(0 <= page) by (nonlinear_arith)
        requires
            k >= 0,
            capacity > 0,
            page == k / capacity,
    ;
    assert(0 <= k % capacity < capacity) by (nonlinear_arith)
        requires
            capacity > 0,
    ;
    assert(page < pages) by (nonlinear_arith)
        requires
            page * capacity <= k,
            k < pages * capacity,
            capacity > 0,
    ;
}

/// The page and the offset of a position are unique.
proof fn lemma_page_unique(page: int, offset: int, capacity: int)
    requires
        0 <= page,
        0 <= offset < capacity,
    ensures
        (page * capacity + offset) / capacity == page,
        (page * capacity + offset) % capacity == offset,
{
    vstd::arithmetic::div_mod::lemma_fundamental_div_mod_converse(
        page * capacity + offset,
        capacity,
        page,
        offset,
    );
}

/// Values before page `page`.
spec fn page_start<T>(directory: PageDirectory<T>, page: int) -> int {
    if page < directory.page_count() {
        page * spec_page_capacity::<T>()
    } else {
        directory.len as int
    }
}

/// Values before leaf `leaf`.
spec fn leaf_start<T>(directory: PageDirectory<T>, leaf: int) -> int {
    if leaf < directory.leaf_count() {
        page_start(directory, 256 * leaf)
    } else {
        directory.len as int
    }
}

proof fn lemma_page_start<T>(directory: PageDirectory<T>, page: int)
    requires
        directory.wf(),
        0 <= page < directory.page_count(),
    ensures
        page_start(directory, page + 1) == page_start(directory, page) + directory.page(page).len(),
        page_start(directory, page + 1) <= directory.len,
{
    let capacity = spec_page_capacity::<T>();
    let pages = directory.page_count();
    lemma_capacity::<T>();
    assert((page + 1) * capacity == page * capacity + capacity) by (nonlinear_arith);
    let values = directory.page(page);
    if page + 1 < pages {
        assert((page + 1) * capacity <= (pages - 1) * capacity) by (nonlinear_arith)
            requires
                page + 1 <= pages - 1,
                capacity > 0,
        ;
    }
}

proof fn lemma_leaf_start<T>(directory: PageDirectory<T>, leaf: int, page: int)
    requires
        directory.wf(),
        0 <= leaf < directory.leaf_count(),
    ensures
        256 * leaf < directory.page_count(),
        page == 0 ==> page_start(directory, 256 * leaf + page) == leaf_start(directory, leaf),
        page == directory.leaf(leaf).pages.len() ==> page_start(directory, 256 * leaf + page)
            == leaf_start(directory, leaf + 1),
{
    let slot = directory.slot(leaf);
    let last = directory.slot(directory.leaf_count() - 1);
}

/// A page holds the values of its positions.
proof fn lemma_page_values<T>(directory: PageDirectory<T>, page: int)
    requires
        directory.wf(),
        0 <= page < directory.page_count(),
    ensures
        0 <= page * spec_page_capacity::<T>() < directory.len,
        directory.page(page) == directory.values().subrange(
            page * spec_page_capacity::<T>(),
            spec_min(
                page * spec_page_capacity::<T>() + spec_page_capacity::<T>(),
                directory.len as int,
            ),
        ),
        page_start(directory, page) == page * spec_page_capacity::<T>(),
        page_start(directory, page + 1) == spec_min(
            page * spec_page_capacity::<T>() + spec_page_capacity::<T>(),
            directory.len as int,
        ),
        forall|k: int|
            page_start(directory, page) <= k < page_start(directory, page + 1) ==> #[trigger] (k
                / spec_page_capacity::<T>()) == page,
{
    let capacity = spec_page_capacity::<T>();
    let pages = directory.page_count();
    let start = page * capacity;
    lemma_capacity::<T>();
    lemma_page_start(directory, page);
    let held = directory.page(page);
    assert(start >= 0) by (nonlinear_arith)
        requires
            start == page * capacity,
            page >= 0,
            capacity > 0,
    ;
    assert(start <= (pages - 1) * capacity) by (nonlinear_arith)
        requires
            start == page * capacity,
            page <= pages - 1,
            capacity > 0,
    ;
    assert((page + 1) * capacity == start + capacity) by (nonlinear_arith)
        requires
            start == page * capacity,
    ;
    assert(pages * capacity == (pages - 1) * capacity + capacity) by (nonlinear_arith);
    if page + 1 < pages {
        assert(start + capacity <= (pages - 1) * capacity) by (nonlinear_arith)
            requires
                start == page * capacity,
                page + 1 <= pages - 1,
                capacity > 0,
        ;
    }
    assert(held.len() <= capacity);
    assert forall|offset: int| 0 <= offset < held.len() implies #[trigger] held[offset]
        == directory.values()[start + offset] by {
        lemma_page_unique(page, offset, capacity);
    }
    assert forall|k: int| start <= k < start + held.len() implies #[trigger] (k / capacity)
        == page by {
        lemma_page_unique(page, k - start, capacity);
    }
    assert(held =~= directory.values().subrange(
        start,
        spec_min(start + capacity, directory.len as int),
    ));
}

/// Page `page` of leaf `leaf` is a page of the directory.
proof fn lemma_leaf_page<T>(directory: PageDirectory<T>, leaf: int, page: int)
    requires
        directory.wf(),
        0 <= leaf < directory.leaf_count(),
        0 <= page < directory.leaf(leaf).pages.len(),
    ensures
        0 <= 256 * leaf + page < directory.page_count(),
        directory.page(256 * leaf + page) == directory.leaf(leaf).pages@[page]@,
        directory.borrows(256 * leaf + page) == (*directory.leaf(leaf).pages@[page] is Shared),
{
    let slot = directory.slot(leaf);
    let last = directory.slot(directory.leaf_count() - 1);
    assert((256 * leaf + page) / 256 == leaf);
    assert((256 * leaf + page) % 256 == page);
}

/// Adding the positions from `from` up to `until` to a set of earlier positions.
proof fn lemma_extend(found: Set<int>, from: int, until: int)
    requires
        found.finite(),
        forall|k: int| #[trigger] found.contains(k) ==> k < from,
        from <= until,
    ensures
        found.union(vstd::set_lib::set_int_range(from, until)).finite(),
        found.union(vstd::set_lib::set_int_range(from, until)).len() == found.len() + (until
            - from),
{
    vstd::set_lib::lemma_int_range(from, until);
    vstd::set_lib::lemma_set_disjoint_lens(found, vstd::set_lib::set_int_range(from, until));
}

/// Adding two byte counts that are both saturated.
proof fn lemma_saturated_sum(count: int, more: int, width: int)
    requires
        0 <= count,
        0 <= more,
        0 <= width,
    ensures
        saturated(saturated(count * width) + saturated(more * width)) == saturated(
            (count + more) * width,
        ),
        count * width >= 0,
        more * width >= 0,
{
    assert((count + more) * width == count * width + more * width) by (nonlinear_arith);
    assert(count * width >= 0) by (nonlinear_arith)
        requires
            count >= 0,
            width >= 0,
    ;
    assert(more * width >= 0) by (nonlinear_arith)
        requires
            more >= 0,
            width >= 0,
    ;
}

/// A flat logical vector backed by a two-level immutable page directory.
///
/// Cloning shares every page. A point write copies one 16-KiB page, one bounded leaf directory, and
/// the small root directory.
pub struct PagedVec<T> {
    root: Arc<PageDirectory<T>>,
}

impl<T> View for PagedVec<T> {
    type V = Seq<T>;

    closed spec fn view(&self) -> Seq<T> {
        self.root.values()
    }
}

impl<T> Default for PagedVec<T> {
    fn default() -> (vector: Self)
        ensures
            vector.wf(),
            vector@ == Seq::<T>::empty(),
            vector.retired_leaves() == 0,
            vector.borrowed() == Set::<int>::empty(),
    {
        let vector = PagedVec {
            root: Arc::new(PageDirectory { leaves: Vec::new(), first_leaf: 0, len: 0 }),
        };
        assert(vector@ =~= Seq::<T>::empty());
        assert(vector.borrowed() =~= Set::<int>::empty());
        vector
    }
}

impl<T> Clone for PagedVec<T> {
    fn clone(&self) -> (copy: Self)
        ensures
            copy == *self,
    {
        PagedVec { root: share(&self.root) }
    }
}

impl<T> PagedVec<T> {
    spec fn directory(&self) -> PageDirectory<T> {
        *self.root
    }

    /// The directory and the pages agree.
    pub closed spec fn wf(&self) -> bool {
        self.root.wf()
    }

    /// Positions whose values lie in an allocation that was handed in.
    pub closed spec fn borrowed(&self) -> Set<int> {
        Set::new(
            |index: int|
                0 <= index < self.root.len && self.root.borrows(index / spec_page_capacity::<T>()),
        )
    }

    /// Leading leaves given up so far. The remaining leaves keep their places after them.
    pub closed spec fn retired_leaves(&self) -> int {
        self.root.first_leaf as int
    }

    /// The values of the page at a place.
    pub open spec fn page_at(&self, place: int) -> Option<Seq<T>> {
        let start = (place - 256 * self.retired_leaves()) * spec_page_capacity::<T>();
        if 0 <= start < self@.len() {
            Some(
                self@.subrange(
                    start,
                    spec_min(start + spec_page_capacity::<T>(), self@.len() as int),
                ),
            )
        } else {
            None
        }
    }

    /// Pages keep their places, and the page of a position has values of its own.
    pub open spec fn detaches_page(&self, before: &Self, index: int) -> bool {
        &&& self.retired_leaves() == before.retired_leaves()
        &&& self.borrowed() == before.borrowed().filter(
            |other: int| other / spec_page_capacity::<T>() != index / spec_page_capacity::<T>(),
        )
    }

    /// The positions on pages that are not marked, the first mark being that of the first page.
    pub open spec fn unmarked(&self, marks: Seq<bool>) -> Set<int> {
        Set::new(
            |index: int|
                0 <= index < self@.len() && !(index / spec_page_capacity::<T>() < marks.len()
                    && marks[index / spec_page_capacity::<T>()]),
        )
    }

    /// Marks of pages that read like the page of `previous` at their place.
    pub open spec fn alike_pages(&self, previous: &Self, marks: Seq<bool>) -> bool {
        forall|page: int|
            0 <= page < marks.len() && #[trigger] marks[page] ==> previous.page_at(
                256 * self.retired_leaves() + page,
            ) == self.page_at(256 * self.retired_leaves() + page)
    }

    pub fn len(&self) -> (len: usize)
        ensures
            len == self@.len(),
    {
        self.root.len
    }

    pub fn is_empty(&self) -> (empty: bool)
        ensures
            empty == (self@.len() == 0),
    {
        self.root.len == 0
    }

    /// Leaf, page in the leaf, and offset in the page of a position.
    fn location(index: usize) -> (place: (usize, usize, usize))
        ensures
            place.0 == index as int / spec_page_capacity::<T>() / 256,
            place.1 == index as int / spec_page_capacity::<T>() % 256,
            place.2 == index as int % spec_page_capacity::<T>(),
    {
        let capacity: usize = page_capacity::<T>();
        let page: usize = index / capacity;
        (page / PAGES_PER_LEAF, page % PAGES_PER_LEAF, index % capacity)
    }

    pub fn get(&self, index: usize) -> (value: Option<&T>)
        requires
            self.wf(),
        ensures
            value == if index < self@.len() {
                Some(&self@[index as int])
            } else {
                None
            },
    {
        if index >= self.root.len {
            return None;
        }
        let (leaf, page, offset) = Self::location(index);
        proof {
            self.root.lemma_location(index as int);
        }
        match &self.root.leaves[self.root.first_leaf + leaf] {
            Some(leaf) => Some(&leaf.pages[page].as_slice()[offset]),
            None => None,
        }
    }
}

/// A vector whose page of one position was written lends what it lent before, that page aside.
proof fn lemma_detaches_page<T>(before: PageDirectory<T>, after: PagedVec<T>, index: int)
    requires
        before.wf(),
        after.wf(),
        after.directory().first_leaf == before.first_leaf,
        0 <= index <= before.len,
        before.len <= after.directory().len <= before.len + 1,
        index < before.len ==> after.directory().len == before.len,
        forall|q: int|
            0 <= q < before.page_count() ==> #[trigger] after.directory().borrows(q) == (q != index
                / spec_page_capacity::<T>() && before.borrows(q)),
        after.directory().len > before.len ==> index == before.len && !after.directory().borrows(
            index / spec_page_capacity::<T>(),
        ),
    ensures
        forall|vector: PagedVec<T>|
            vector.directory() == before ==> #[trigger] after.detaches_page(&vector, index),
{
    assert forall|vector: PagedVec<T>| vector.directory() == before implies #[trigger] after.detaches_page(
        &vector,
        index,
    ) by {
        let capacity = spec_page_capacity::<T>();
        let kept = vector.borrowed().filter(|other: int| other / capacity != index / capacity);
        assert forall|other: int| #[trigger]
            after.borrowed().contains(other) == kept.contains(other) by {
            if 0 <= other < before.len {
                before.lemma_location(other);
                assert(after.directory().borrows(other / capacity) == (other / capacity != index
                    / capacity && before.borrows(other / capacity)));
            }
        }
        assert(after.borrowed() =~= kept);
        assert(kept =~= vector.borrowed().filter(
            |other: int|
                other / spec_page_capacity::<T>() != index / spec_page_capacity::<T>(),
        ));
    }
}

impl<T: Clone> PagedVec<T> {
    /// Access to one value. Whatever is written through it, every other value stays, and every
    /// clone of this vector keeps all of its values.
    pub fn get_mut(&mut self, index: usize) -> (value: Option<&mut T>)
        requires
            old(self).wf(),
            clone_faithful::<T>(),
        ensures
            final(self).wf(),
            match value {
                Some(value) => {
                    &&& index < old(self)@.len()
                    &&& *value == old(self)@[index as int]
                    &&& final(self)@ == old(self)@.update(index as int, *final(value))
                    &&& final(self).detaches_page(old(self), index as int)
                },
                None => index >= old(self)@.len() && *final(self) == *old(self),
            },
    {
        if index >= self.root.len {
            return None;
        }
        let ghost before = self.directory();
        let directory = make_mut(&mut self.root);
        proof {
            lemma_alike(before, *directory);
        }
        let value = directory.value_mut(index);
        proof {
            lemma_detaches_page(before, *after_borrow(self), index as int);
        }
        Some(value)
    }

    pub fn replace(&mut self, index: usize, value: T) -> (result: std::result::Result<
        (),
        &'static str,
    >)
        requires
            old(self).wf(),
            clone_faithful::<T>(),
        ensures
            final(self).wf(),
            match result {
                Ok(_) => index < old(self)@.len() && final(self)@ == old(self)@.update(
                    index as int,
                    value,
                ) && final(self).detaches_page(old(self), index as int),
                Err(message) => {
                    &&& index >= old(self)@.len()
                    &&& *final(self) == *old(self)
                    &&& message@ == "paged vector index is out of bounds"@
                },
            },
    {
        match self.get_mut(index) {
            Some(slot) => {
                *slot = value;
                Ok(())
            },
            None => Err("paged vector index is out of bounds"),
        }
    }

    pub fn push(&mut self, value: T)
        requires
            old(self).wf(),
            clone_faithful::<T>(),
            old(self)@.len() < usize::MAX,
        ensures
            final(self).wf(),
            final(self)@ == old(self)@.push(value),
            final(self).detaches_page(old(self), old(self)@.len() as int),
    {
        let capacity: usize = page_capacity::<T>();
        let ghost before = self.directory();
        let directory = make_mut(&mut self.root);
        proof {
            lemma_alike(before, *directory);
            lemma_last_page(*directory);
        }
        let leaf_total: usize = directory.leaves.len();
        let needs_leaf: bool = if leaf_total == 0 {
            true
        } else {
            match &directory.leaves[leaf_total - 1] {
                None => true,
                Some(leaf) => leaf.pages.len() == PAGES_PER_LEAF && leaf.pages[leaf.pages.len()
                    - 1].len() == capacity,
            }
        };
        if needs_leaf {
            directory.leaves.push(Some(Arc::new(PageLeaf { pages: Vec::new(), len: 0 })));
        }
        let last: usize = directory.leaves.len() - 1;
        let ghost mut opened_page = false;
        match &mut directory.leaves[last] {
            Some(leaf) => {
                let leaf = make_mut(leaf);
                let page_total: usize = leaf.pages.len();
                proof {
                    opened_page = page_total == 0 || leaf.pages@.last()@.len() == capacity;
                }
                if page_total == 0 || leaf.pages[page_total - 1].len() == capacity {
                    leaf.pages.push(Arc::new(ValuePage::Owned(Vec::with_capacity(capacity))));
                }
                let page_index: usize = leaf.pages.len() - 1;
                make_mut(&mut leaf.pages[page_index]).push(value);
                leaf.len = leaf.len + 1;
            },
            None => {},
        }
        directory.len = directory.len + 1;
        proof {
            if opened_page {
                let pages = before.page_count();
                assert(pages * capacity == (pages - 1) * capacity + capacity) by (nonlinear_arith);
                assert(0 * capacity == 0) by (nonlinear_arith);
                assert(seq![value] =~= Seq::<T>::empty().push(value));
                lemma_page_added(before, *directory, seq![value]);
                assert(before.values() + seq![value] =~= before.values().push(value));
                lemma_page_unique(pages, 0, capacity as int);
            } else {
                let full = before.page_count() - 1;
                lemma_appended(before, *directory, value);
                lemma_page_unique(full, before.len - full * capacity, capacity as int);
            }
            lemma_detaches_page(before, *self, before.len as int);
        }
    }

    /// Rebuilds only the bounded page directory over one immutable shared flat allocation. Value
    /// bytes remain owned by the allocation and are not copied. A later point mutation detaches
    /// exactly the touched page into ordinary host memory.
    pub fn from_shared(values: SharedFlat<T>) -> (vector: std::result::Result<Self, &'static str>)
        ensures
            vector is Ok,
            vector->Ok_0.wf(),
            vector->Ok_0@ == values@,
            vector->Ok_0.retired_leaves() == 0,
            vector->Ok_0.borrowed() == vstd::set_lib::set_int_range(0, values@.len() as int),
    {
        let capacity: usize = page_capacity::<T>();
        let total: usize = values.len();
        let mut directory: PageDirectory<T> = PageDirectory {
            leaves: Vec::new(),
            first_leaf: 0,
            len: 0,
        };
        assert(directory.values() =~= values@.subrange(0, 0));
        assert(0 * capacity == 0) by (nonlinear_arith);
        while directory.len < total
            invariant
                capacity == spec_page_capacity::<T>(),
                1 <= capacity <= 4096,
                total == values@.len(),
                directory.wf(),
                directory.len <= total,
                directory.first_leaf == 0,
                directory.len < total ==> directory.len == directory.page_count() * capacity,
                directory.values() == values@.subrange(0, directory.len as int),
                forall|q: int| 0 <= q < directory.page_count() ==> #[trigger] directory.borrows(q),
            decreases total - directory.len,
        {
            let offset: usize = directory.len;
            let page_len: usize = if capacity < total - offset {
                capacity
            } else {
                total - offset
            };
            let page = ValuePage::Shared(
                match values.slice(offset, page_len) {
                    Ok(window) => window,
                    Err(message) => {
                        return Err(message);
                    },
                },
            );
            let ghost before = directory;
            let ghost added = page@;
            proof {
                lemma_last_page(before);
            }
            let leaf_total: usize = directory.leaves.len();
            let needs_leaf: bool = if leaf_total == 0 {
                true
            } else {
                match &directory.leaves[leaf_total - 1] {
                    None => true,
                    Some(leaf) => leaf.pages.len() == PAGES_PER_LEAF,
                }
            };
            if needs_leaf {
                directory.leaves.push(Some(Arc::new(PageLeaf { pages: Vec::new(), len: 0 })));
            }
            let last: usize = directory.leaves.len() - 1;
            match &mut directory.leaves[last] {
                Some(leaf) => {
                    let leaf = make_mut(leaf);
                    leaf.pages.push(Arc::new(page));
                    leaf.len = leaf.len + page_len;
                },
                None => {},
            }
            directory.len = directory.len + page_len;
            proof {
                lemma_page_added(before, directory, added);
                assert((before.page_count() + 1) * capacity == before.page_count() * capacity
                    + capacity) by (nonlinear_arith);
                assert(values@.subrange(0, offset as int) + added =~= values@.subrange(
                    0,
                    directory.len as int,
                ));
            }
        }
        assert(values@.subrange(0, total as int) =~= values@);
        let vector = PagedVec { root: Arc::new(directory) };
        proof {
            assert forall|index: int| 0 <= index < total implies #[trigger] vector.borrowed().contains(
                index,
            ) by {
                directory.lemma_location(index);
            }
            assert(vector.borrowed() =~= vstd::set_lib::set_int_range(0, total as int));
        }
        Ok(vector)
    }

    pub fn rebase_shared(&mut self, values: SharedFlat<T>) -> (result: std::result::Result<
        (),
        &'static str,
    >)
        ensures
            result is Ok,
            final(self).wf(),
            final(self)@ == values@,
            final(self).retired_leaves() == 0,
            final(self).borrowed() == vstd::set_lib::set_int_range(0, values@.len() as int),
    {
        match Self::from_shared(values) {
            Ok(vector) => {
                *self = vector;
                Ok(())
            },
            Err(message) => Err(message),
        }
    }

    /// Releases complete leading leaf allocations covered by `elements` and returns the exact
    /// number of removed values. At most the small root directory and the removed leaf slots are
    /// detached; remaining value pages are never copied or shifted.
    pub fn discard_prefix_leaves(&mut self, elements: usize) -> (removed: usize)
        requires
            old(self).wf(),
        ensures
            final(self).wf(),
            removed == retired_len::<T>(old(self)@.len() as int, elements as int),
            final(self)@ == old(self)@.subrange(removed as int, old(self)@.len() as int),
            final(self)@.len() > 0 ==> final(self).retired_leaves() == old(self).retired_leaves()
                + removed as int / (256 * spec_page_capacity::<T>()),
            forall|index: int|
                0 <= index < final(self)@.len() ==> #[trigger] final(self).borrowed().contains(
                    index,
                ) == old(self).borrowed().contains(index + removed),
    {
        let ghost before = self.directory();
        let ghost width = 256 * spec_page_capacity::<T>();
        let first: usize = self.root.first_leaf;
        let leaf_total: usize = self.root.leaves.len() - first;
        let mut removable: usize = 0;
        let mut leaves: usize = 0;
        proof {
            lemma_capacity::<T>();
            assert(0 * width == 0) by (nonlinear_arith);
            lemma_last_page(before);
        }
        while leaves < leaf_total
            invariant_except_break
                leaves <= leaf_total,
                removable <= elements,
                removable == if leaves < leaf_total {
                    leaves * width
                } else {
                    before.len as int
                },
            invariant
                before == self.directory(),
                before.wf(),
                width == 256 * spec_page_capacity::<T>(),
                width > 0,
                first == before.first_leaf,
                leaf_total == before.leaf_count(),
            ensures
                leaves <= leaf_total,
                removable <= elements,
                leaves < leaf_total ==> removable == leaves * width && before.len > elements
                    && elements < (leaves + 1) * width,
                leaves == leaf_total ==> removable == before.len,
            decreases leaf_total - leaves,
        {
            proof {
                let slot = before.slot(leaves as int);
                assert((leaves + 1) * width == leaves * width + width) by (nonlinear_arith);
                assert((leaf_total - 1) * width <= before.len) by {
                    let last = before.slot(leaf_total - 1);
                }
                lemma_last_page(before);
                if leaves < leaf_total - 1 {
                    assert((leaves + 1) * width <= (leaf_total - 1) * width) by (nonlinear_arith)
                        requires
                            leaves + 1 <= leaf_total - 1,
                            width > 0,
                    ;
                }
            }
            let leaf_len: usize = match &self.root.leaves[first + leaves] {
                Some(leaf) => leaf.len,
                None => 0,
            };
            let next: usize = removable + leaf_len;
            if next > elements {
                break;
            }
            removable = next;
            leaves = leaves + 1;
        }
        if leaves == 0 {
            proof {
                if leaf_total > 0 {
                    lemma_page_unique(0, elements as int, width);
                }
                assert(self@.subrange(0, self@.len() as int) =~= self@);
            }
            return 0;
        }
        let directory = make_mut(&mut self.root);
        proof {
            lemma_alike(before, *directory);
        }
        let end: usize = first + leaves;
        let mut index: usize = first;
        while index < end
            invariant
                first <= index <= end,
                end <= directory.leaves.len(),
                directory.first_leaf == first,
                directory.len == before.len,
                directory.leaves.len() == before.leaves.len(),
                forall|i: int|
                    end <= i < before.leaves.len() ==> #[trigger] directory.leaves@[i]
                        == before.leaves@[i],
            decreases end - index,
        {
            directory.leaves.set(index, None);
            index = index + 1;
        }
        directory.first_leaf = end;
        directory.len = directory.len - removable;
        if directory.len == 0 {
            directory.leaves.clear();
            directory.first_leaf = 0;
        }
        proof {
            let after = *directory;
            if leaves == leaf_total {
                assert(after.values() =~= before.values().subrange(
                    removable as int,
                    before.len as int,
                ));
            } else {
                let rest = elements - leaves * width;
                assert((leaves + 1) * width == leaves * width + width) by (nonlinear_arith);
                lemma_page_unique(leaves as int, rest, width);
                lemma_page_unique(leaves as int, 0, width);
                lemma_retired(before, after, leaves as int);
                let capacity = spec_page_capacity::<T>();
                assert(removable == 256 * leaves * capacity) by (nonlinear_arith)
                    requires
                        removable == leaves * width,
                        width == 256 * capacity,
                ;
                assert forall|index: int| 0 <= index < after.len implies after.borrows(
                    #[trigger] (index / capacity),
                ) == before.borrows((index + removable) / capacity) by {
                    after.lemma_location(index);
                    lemma_page_of(index, after.len as int, after.page_count(), capacity);
                    let page = index / capacity;
                    let offset = index % capacity;
                    assert((page + 256 * leaves) * capacity + offset == index + removable)
                        by (nonlinear_arith)
                        requires
                            index == page * capacity + offset,
                            removable == 256 * leaves * capacity,
                    ;
                    lemma_page_unique(page + 256 * leaves, offset, capacity);
                }
            }
        }
        removable
    }
}

impl<T> PagedVec<T> {
    /// Values held by the first leaf, the smallest prefix that can be discarded.
    pub fn first_leaf_len(&self) -> (len: usize)
        requires
            self.wf(),
        ensures
            len == if self@.len() < 256 * spec_page_capacity::<T>() {
                self@.len() as int
            } else {
                256 * spec_page_capacity::<T>()
            },
    {
        let ghost width = 256 * spec_page_capacity::<T>();
        proof {
            lemma_capacity::<T>();
            lemma_last_page(self.directory());
            let leaves = self.directory().leaf_count();
            assert(0 * width == 0) by (nonlinear_arith);
            if leaves > 1 {
                let slot = self.directory().slot(0);
                let last = self.directory().slot(leaves - 1);
                assert(width <= (leaves - 1) * width) by (nonlinear_arith)
                    requires
                        leaves > 1,
                        width > 0,
                ;
            } else if leaves == 1 {
                let slot = self.directory().slot(0);
                let pages = self.directory().page_count();
                assert(pages * spec_page_capacity::<T>() <= width) by (nonlinear_arith)
                    requires
                        pages <= 256,
                        spec_page_capacity::<T>() > 0,
                        width == 256 * spec_page_capacity::<T>(),
                ;
            }
        }
        if self.root.first_leaf >= self.root.leaves.len() {
            return 0;
        }
        match &self.root.leaves[self.root.first_leaf] {
            Some(leaf) => leaf.len,
            None => 0,
        }
    }

    /// Every value in order.
    pub fn iter(&self) -> (values: Vec<&T>)
        requires
            self.wf(),
        ensures
            values@.len() == self@.len(),
            forall|i: int| 0 <= i < self@.len() ==> *(#[trigger] values@[i]) == self@[i],
    {
        let mut values: Vec<&T> = Vec::with_capacity(self.len());
        let total: usize = self.len();
        for index in 0..total
            invariant
                self.wf(),
                total == self@.len(),
                values@.len() == index,
                forall|i: int| 0 <= i < index ==> *(#[trigger] values@[i]) == self@[i],
        {
            if let Some(value) = self.get(index) {
                values.push(value);
            }
        }
        values
    }

    /// Value-page bytes that are not in the same allocation as the page of `previous` at the same
    /// place. Which of the pages that read alike there lie in one allocation is a fact about the
    /// process.
    pub fn detached_page_bytes_from(&self, previous: &Self) -> (bytes: usize)
        requires
            self.wf(),
            previous.wf(),
        ensures
            exists|marks: Seq<bool>| #[trigger]
                self.alike_pages(previous, marks) && bytes == saturated(
                    self.unmarked(marks).len() * size_of::<T>() as int,
                ),
            bytes <= self@.len() * size_of::<T>(),
    {
        let marks = self.shared_pages(previous);
        let bytes: usize = self.unmarked_page_bytes(&marks);
        assert(self.alike_pages(previous, marks@));
        bytes
    }

    /// Marks the pages that are in the same allocation as the page of `previous` at their place.
    fn shared_pages(&self, previous: &Self) -> (marks: Vec<bool>)
        requires
            self.wf(),
            previous.wf(),
        ensures
            self.alike_pages(previous, marks@),
    {
        let first: usize = self.root.first_leaf;
        let mut marks: Vec<bool> = Vec::new();
        let mut leaf: usize = first;
        while leaf < self.root.leaves.len()
            invariant
                self.wf(),
                previous.wf(),
                first == self.directory().first_leaf,
                first <= leaf <= self.directory().leaves.len(),
                leaf < self.directory().leaves.len() ==> marks@.len() == 256 * (leaf - first),
                self.alike_pages(previous, marks@),
            decreases self.directory().leaves.len() - leaf,
        {
            proof {
                let slot = self.directory().slot(leaf - first);
            }
            if let Some(current) = &self.root.leaves[leaf] {
                let mut page: usize = 0;
                while page < current.pages.len()
                    invariant
                        self.wf(),
                        previous.wf(),
                        first == self.directory().first_leaf,
                        first <= leaf < self.directory().leaves.len(),
                        **current == self.directory().leaf(leaf - first),
                        page <= current.pages.len(),
                        marks@.len() == 256 * (leaf - first) + page,
                        self.alike_pages(previous, marks@),
                    decreases current.pages.len() - page,
                {
                    let shared: bool = if leaf >= previous.root.first_leaf && leaf
                        < previous.root.leaves.len() {
                        match &previous.root.leaves[leaf] {
                            Some(old) => page < old.pages.len() && same_allocation(
                                &old.pages[page],
                                &current.pages[page],
                            ),
                            None => false,
                        }
                    } else {
                        false
                    };
                    proof {
                        if shared {
                            lemma_same_page(
                                previous,
                                self,
                                leaf - previous.directory().first_leaf,
                                leaf - first,
                                page as int,
                            );
                        }
                    }
                    marks.push(shared);
                    page = page + 1;
                }
            }
            leaf = leaf + 1;
        }
        marks
    }

    /// Value-page bytes of the pages that are not marked.
    pub fn unmarked_page_bytes(&self, marks: &Vec<bool>) -> (bytes: usize)
        requires
            self.wf(),
        ensures
            bytes == saturated(self.unmarked(marks@).len() * size_of::<T>() as int),
            bytes <= self@.len() * size_of::<T>(),
    {
        let width: usize = core::mem::size_of::<T>();
        let first: usize = self.root.first_leaf;
        let mut bytes: usize = 0;
        let mut seen: usize = 0;
        let ghost mut found: Set<int> = Set::empty();
        let ghost mut counted: int = 0;
        let mut leaf: usize = first;
        assert(0 * width == 0) by (nonlinear_arith);
        while leaf < self.root.leaves.len()
            invariant
                self.wf(),
                first == self.directory().first_leaf,
                first <= leaf <= self.directory().leaves.len(),
                leaf < self.directory().leaves.len() ==> seen == 256 * (leaf - first),
                width == size_of::<T>(),
                counted == leaf_start(self.directory(), leaf - first),
                found.finite(),
                bytes == saturated(found.len() * width),
                forall|k: int| #[trigger]
                    found.contains(k) <==> self.unmarked(marks@).contains(k) && k < counted,
            decreases self.directory().leaves.len() - leaf,
        {
            proof {
                let slot = self.directory().slot(leaf - first);
            }
            if let Some(current) = &self.root.leaves[leaf] {
                let mut page: usize = 0;
                proof {
                    lemma_leaf_start(self.directory(), leaf - first, 0);
                }
                while page < current.pages.len()
                    invariant
                        self.wf(),
                        first == self.directory().first_leaf,
                        first <= leaf < self.directory().leaves.len(),
                        **current == self.directory().leaf(leaf - first),
                        page <= current.pages.len(),
                        seen == 256 * (leaf - first) + page,
                        width == size_of::<T>(),
                        counted == page_start(self.directory(), 256 * (leaf - first) + page),
                        found.finite(),
                        bytes == saturated(found.len() * width),
                        forall|k: int| #[trigger]
                            found.contains(k) <==> self.unmarked(marks@).contains(k) && k < counted,
                    decreases current.pages.len() - page,
                {
                    let ghost place: int = 256 * (leaf - first) + page;
                    proof {
                        lemma_leaf_page(self.directory(), leaf - first, page as int);
                        lemma_page_start(self.directory(), place);
                        lemma_page_values(self.directory(), place);
                        lemma_pages_counted(self.directory());
                    }
                    let marked: bool = seen < marks.len() && marks[seen];
                    let page_len: usize = current.pages[page].len();
                    let ghost until: int = counted + page_len;
                    let ghost earlier: Set<int> = found;
                    proof {
                        lemma_extend(found, counted, until);
                        lemma_saturated_sum(found.len() as int, page_len as int, width as int);
                        assert forall|k: int| counted <= k < until implies self.unmarked(
                            marks@,
                        ).contains(k) == !marked by {
                            assert(k / spec_page_capacity::<T>() == place);
                        }
                    }
                    if !marked {
                        bytes = bytes.saturating_add(saturating_product(page_len, width));
                        proof {
                            found = found.union(vstd::set_lib::set_int_range(counted, until));
                        }
                    }
                    proof {
                        assert forall|k: int| #[trigger]
                            found.contains(k) <==> self.unmarked(marks@).contains(k) && k
                                < until by {
                            assert(earlier.contains(k) <==> self.unmarked(marks@).contains(k) && k
                                < counted);
                        }
                        counted = until;
                    }
                    seen = seen + 1;
                    page = page + 1;
                }
                proof {
                    lemma_leaf_start(self.directory(), leaf - first, current.pages.len() as int);
                }
            }
            leaf = leaf + 1;
        }
        proof {
            assert(found =~= self.unmarked(marks@));
            lemma_within(found, self@.len() as int, width as int);
        }
        bytes
    }

    /// Value-page bytes that still lie in an allocation that was handed in.
    pub fn shared_value_bytes(&self) -> (bytes: usize)
        requires
            self.wf(),
        ensures
            bytes == saturated(self.borrowed().len() * size_of::<T>() as int),
            bytes <= self@.len() * size_of::<T>(),
    {
        let width: usize = core::mem::size_of::<T>();
        let first: usize = self.root.first_leaf;
        let mut bytes: usize = 0;
        let ghost mut found: Set<int> = Set::empty();
        let ghost mut counted: int = 0;
        let mut leaf: usize = first;
        assert(0 * width == 0) by (nonlinear_arith);
        while leaf < self.root.leaves.len()
            invariant
                self.wf(),
                first == self.directory().first_leaf,
                first <= leaf <= self.directory().leaves.len(),
                width == size_of::<T>(),
                counted == leaf_start(self.directory(), leaf - first),
                found.finite(),
                bytes == saturated(found.len() * width),
                forall|k: int| #[trigger]
                    found.contains(k) <==> self.borrowed().contains(k) && k < counted,
            decreases self.directory().leaves.len() - leaf,
        {
            proof {
                let slot = self.directory().slot(leaf - first);
            }
            if let Some(current) = &self.root.leaves[leaf] {
                let mut page: usize = 0;
                proof {
                    lemma_leaf_start(self.directory(), leaf - first, 0);
                }
                while page < current.pages.len()
                    invariant
                        self.wf(),
                        first == self.directory().first_leaf,
                        first <= leaf < self.directory().leaves.len(),
                        **current == self.directory().leaf(leaf - first),
                        page <= current.pages.len(),
                        width == size_of::<T>(),
                        counted == page_start(self.directory(), 256 * (leaf - first) + page),
                        found.finite(),
                        bytes == saturated(found.len() * width),
                        forall|k: int| #[trigger]
                            found.contains(k) <==> self.borrowed().contains(k) && k < counted,
                    decreases current.pages.len() - page,
                {
                    let ghost place: int = 256 * (leaf - first) + page;
                    proof {
                        lemma_leaf_page(self.directory(), leaf - first, page as int);
                        lemma_page_start(self.directory(), place);
                        lemma_page_values(self.directory(), place);
                    }
                    let shared: bool = match &*current.pages[page] {
                        ValuePage::Shared(_) => true,
                        ValuePage::Owned(_) => false,
                    };
                    let page_len: usize = current.pages[page].len();
                    let ghost until: int = counted + page_len;
                    let ghost earlier: Set<int> = found;
                    proof {
                        lemma_extend(found, counted, until);
                        lemma_saturated_sum(found.len() as int, page_len as int, width as int);
                        assert forall|k: int| counted <= k < until implies self.borrowed().contains(
                            k,
                        ) == shared by {
                            assert(k / spec_page_capacity::<T>() == place);
                        }
                    }
                    if shared {
                        bytes = bytes.saturating_add(saturating_product(page_len, width));
                        proof {
                            found = found.union(vstd::set_lib::set_int_range(counted, until));
                        }
                    }
                    proof {
                        assert forall|k: int| #[trigger]
                            found.contains(k) <==> self.borrowed().contains(k) && k < until by {
                            assert(earlier.contains(k) <==> self.borrowed().contains(k) && k
                                < counted);
                        }
                        counted = until;
                    }
                    page = page + 1;
                }
                proof {
                    lemma_leaf_start(self.directory(), leaf - first, current.pages.len() as int);
                }
            }
            leaf = leaf + 1;
        }
        proof {
            assert(found =~= self.borrowed());
            lemma_within(found, self@.len() as int, width as int);
        }
        bytes
    }
}

/// Pages in one allocation read alike at one place.
proof fn lemma_same_page<T>(
    previous: &PagedVec<T>,
    vector: &PagedVec<T>,
    old_leaf: int,
    leaf: int,
    page: int,
)
    requires
        previous.wf(),
        vector.wf(),
        0 <= old_leaf < previous.directory().leaf_count(),
        0 <= leaf < vector.directory().leaf_count(),
        previous.retired_leaves() + old_leaf == vector.retired_leaves() + leaf,
        0 <= page < previous.directory().leaf(old_leaf).pages.len(),
        0 <= page < vector.directory().leaf(leaf).pages.len(),
        previous.directory().leaf(old_leaf).pages@[page] == vector.directory().leaf(
            leaf,
        ).pages@[page],
    ensures
        previous.page_at(256 * (vector.retired_leaves() + leaf) + page) == vector.page_at(
            256 * (vector.retired_leaves() + leaf) + page,
        ),
{
    lemma_leaf_page(previous.directory(), old_leaf, page);
    lemma_leaf_page(vector.directory(), leaf, page);
    lemma_page_values(previous.directory(), 256 * old_leaf + page);
    lemma_page_values(vector.directory(), 256 * leaf + page);
}

/// There are no more pages than values.
proof fn lemma_pages_counted<T>(directory: PageDirectory<T>)
    requires
        directory.wf(),
    ensures
        directory.page_count() <= directory.len,
{
    lemma_capacity::<T>();
    let pages = directory.page_count();
    let capacity = spec_page_capacity::<T>();
    if directory.leaf_count() > 0 {
        assert(pages - 1 <= (pages - 1) * capacity) by (nonlinear_arith)
            requires
                pages >= 1,
                capacity >= 1,
        ;
    }
}

/// Positions below `total` are at most `total`.
proof fn lemma_within(found: Set<int>, total: int, width: int)
    requires
        forall|k: int| #[trigger] found.contains(k) ==> 0 <= k < total,
        0 <= total,
        0 <= width,
    ensures
        found.finite(),
        saturated(found.len() * width) <= total * width,
{
    vstd::set_lib::lemma_int_range(0, total);
    vstd::set_lib::lemma_len_subset(found, vstd::set_lib::set_int_range(0, total));
    assert(found.len() * width <= total * width) by (nonlinear_arith)
        requires
            found.len() <= total,
            width >= 0,
    ;
}

impl<T: Clone> PagedVec<T> {
    pub fn to_vec(&self) -> (values: Vec<T>)
        requires
            self.wf(),
            clone_faithful::<T>(),
        ensures
            values@ == self@,
    {
        let mut values: Vec<T> = Vec::with_capacity(self.len());
        let total: usize = self.len();
        for index in 0..total
            invariant
                self.wf(),
                total == self@.len(),
                clone_faithful::<T>(),
                values@ == self@.subrange(0, index as int),
        {
            if let Some(value) = self.get(index) {
                let copy = value.clone();
                assert(cloned(*value, copy));
                values.push(copy);
                assert(values@ =~= self@.subrange(0, index + 1));
            }
        }
        assert(values@ =~= self@);
        values
    }
}

} // verus!
