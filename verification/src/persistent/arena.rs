//! An append-only arena of contiguous value ranges.

use crate::arith::{saturated, saturating_product};
use crate::persistent::paged::{page_capacity, PagedVec};
use crate::shared::{clone_faithful, lemma_handle_faithful, Handle};
use vstd::layout::size_of;
use vstd::prelude::*;

verus! {

/// Where one appended range stands: its page, its first element on the page, and its length.
#[derive(Clone, Copy, Debug, PartialEq, Eq, Structural)]
pub struct ArenaSpan {
    pub page: u32,
    pub start: u32,
    pub len: u32,
}

impl Default for ArenaSpan {
    fn default() -> (span: Self)
        ensures
            span == (ArenaSpan { page: 0, start: 0, len: 0 }),
    {
        ArenaSpan { page: 0, start: 0, len: 0 }
    }
}

/// Append-only typed arena. Small values share 16-KiB pages and every span remains contiguous;
/// replacing a row therefore appends one range and retargets one paged descriptor.
pub struct PagedArena<T> {
    pages: PagedVec<Handle<Vec<T>>>,
    elements: usize,
}

/// `Vec::capacity`: how many elements the vector can hold without growing. It is the allocator's
/// choice, never below the length.
#[verifier::external_body]
pub(crate) fn room<T>(values: &Vec<T>) -> (capacity: usize)
    ensures
        capacity >= values.len(),
{
    values.capacity()
}

impl<T> Default for PagedArena<T> {
    fn default() -> (arena: Self)
        ensures
            arena.wf(),
            arena.spec_elements() == 0,
            arena.page_total() == 0,
            arena.compact(),
    {
        PagedArena { pages: PagedVec::default(), elements: 0 }
    }
}

impl<T> Clone for PagedArena<T> {
    fn clone(&self) -> (copy: Self)
        ensures
            copy == *self,
    {
        PagedArena { pages: self.pages.clone(), elements: self.elements }
    }
}

/// What is said where a short range cannot be appended. A page that is too long is said to be so only
/// where the range would have gone there; else there are too many pages.
pub open spec fn full_message(overflows: bool, overlong: bool, message: Seq<char>) -> bool {
    if overflows {
        message == "arena element count overflow"@
    } else {
        message == "arena page count exceeds u32"@ || overlong && message
            == "arena page offset exceeds u32"@
    }
}

impl<T> PagedArena<T> {
    pub closed spec fn wf(&self) -> bool {
        self.pages.wf()
    }

    /// Pages in use.
    pub closed spec fn page_total(&self) -> nat {
        self.pages@.len()
    }

    /// Elements appended so far.
    pub closed spec fn spec_elements(&self) -> usize {
        self.elements
    }

    spec fn page(&self, page: int) -> Seq<T> {
        self.pages@[page].spec_value()@
    }

    /// The range that a span denotes. The empty span denotes the empty range.
    pub closed spec fn range(&self, span: ArenaSpan) -> Option<Seq<T>> {
        if span.len == 0 {
            Some(Seq::empty())
        } else if span.page < self.pages@.len() && span.start + span.len <= self.page(
            span.page as int,
        ).len() {
            Some(self.page(span.page as int).subrange(span.start as int, span.start + span.len))
        } else {
            None
        }
    }

    pub fn get(&self, span: ArenaSpan) -> (values: Option<&[T]>)
        requires
            self.wf(),
        ensures
            values is Some == self.range(span) is Some,
            values matches Some(slice) ==> Some(slice@) == self.range(span),
    {
        if span.len == 0 {
            let empty: &[T] = &[];
            assert(empty@ =~= Seq::<T>::empty());
            return Some(empty);
        }
        let page = match self.pages.get(span.page as usize) {
            Some(page) => page.value(),
            None => {
                return None;
            },
        };
        let held: usize = page.len();
        let start: usize = span.start as usize;
        let end: usize = match start.checked_add(span.len as usize) {
            Some(end) => end,
            None => {
                return None;
            },
        };
        if end > held {
            return None;
        }
        Some(&page.as_slice()[start..end])
    }

    pub fn estimated_bytes(&self) -> (bytes: usize)
        ensures
            bytes == saturated(self.spec_elements() * size_of::<T>()),
    {
        saturating_product(self.elements, core::mem::size_of::<T>())
    }

    /// The arena has a page, or an offset in a page, that no span can address.
    pub closed spec fn full(&self) -> bool {
        ||| self.pages@.len() > u32::MAX
        ||| self.pages@.len() == usize::MAX
        ||| self.overlong()
    }

    /// Some page is longer than an offset can say.
    pub closed spec fn overlong(&self) -> bool {
        exists|page: int|
            0 <= page < self.pages@.len() && (#[trigger] self.page(page)).len() > u32::MAX
    }

    /// No page holds more elements than were appended.
    pub closed spec fn compact(&self) -> bool {
        forall|page: int|
            0 <= page < self.pages@.len() ==> (#[trigger] self.page(page)).len() <= self.elements
    }

    /// Small pages, and few of them, can be addressed.
    pub proof fn lemma_compact(&self)
        requires
            self.compact(),
            self.spec_elements() <= u32::MAX,
            self.page_total() <= u32::MAX,
            self.page_total() < usize::MAX,
        ensures
            !self.full(),
    {
        assert forall|page: int| 0 <= page < self.pages@.len() implies (
        #[trigger] self.page(page)).len() <= u32::MAX by {}
    }

    pub fn elements(&self) -> (elements: usize)
        ensures
            elements == self.spec_elements(),
    {
        self.elements
    }
}

impl<T: Clone> PagedArena<T> {
    /// Appends one contiguous range. Every span that denoted a range before denotes it still.
    pub fn append(&mut self, values: Vec<T>) -> (result: std::result::Result<
        ArenaSpan,
        &'static str,
    >)
        requires
            old(self).wf(),
            clone_faithful::<T>(),
        ensures
            final(self).wf(),
            old(self).page_total() <= final(self).page_total() <= old(self).page_total() + 1,
            forall|span: ArenaSpan| #[trigger]
                old(self).range(span) is Some ==> final(self).range(span) == old(self).range(span),
            values.len() == 0 ==> result is Ok,
            values.len() > u32::MAX ==> (result matches Err(message) && message@
                == "arena value range exceeds u32"@),
            0 < values.len() <= u32::MAX && old(self).spec_elements() + values.len() > usize::MAX
                ==> (result matches Err(message) && message@ == "arena element count overflow"@),
            match result {
                Ok(span) => {
                    &&& span.len == values.len()
                    &&& final(self).range(span) == Some(values@)
                    &&& final(self).spec_elements() == old(self).spec_elements() + values.len()
                    &&& old(self).compact() ==> final(self).compact()
                },
                Err(message) => {
                    &&& *final(self) == *old(self)
                    &&& values.len() > u32::MAX || old(self).spec_elements() + values.len()
                        > usize::MAX || old(self).full()
                    &&& values.len() <= u32::MAX ==> full_message(
                        old(self).spec_elements() + values.len() > usize::MAX,
                        old(self).overlong(),
                        message@,
                    )
                },
            },
    {
        proof {
            lemma_handle_faithful::<Vec<T>>();
        }
        let mut values = values;
        let ghost appended = values@;
        if values.len() == 0 {
            assert(appended =~= Seq::<T>::empty());
            return Ok(ArenaSpan::default());
        }
        if values.len() as u64 > u32::MAX as u64 {
            return Err("arena value range exceeds u32");
        }
        let len: u32 = values.len() as u32;
        let final_elements: usize = match self.elements.checked_add(values.len()) {
            Some(total) => total,
            None => {
                return Err("arena element count overflow");
            },
        };
        let capacity: usize = page_capacity::<T>();
        let page_total: usize = self.pages.len();
        let reuse: bool = if page_total == 0 {
            false
        } else {
            match self.pages.get(page_total - 1) {
                Some(page) => room(page.value()) - page.value().len() >= values.len(),
                None => false,
            }
        };
        if reuse {
            let page_index: usize = page_total - 1;
            if page_index as u64 > u32::MAX as u64 {
                return Err("arena page count exceeds u32");
            }
            let start: usize = match self.pages.get(page_index) {
                Some(page) => page.value().len(),
                None => 0,
            };
            if start as u64 > u32::MAX as u64 {
                assert(self.page(page_index as int).len() > u32::MAX);
                return Err("arena page offset exceeds u32");
            }
            let ghost before = *self;
            if let Some(page) = self.pages.get_mut(page_index) {
                let ghost original = page.spec_value();
                let page = page.value_mut();
                assert(page@ =~= original@);
                page.append(&mut values);
            }
            self.elements = final_elements;
            let span = ArenaSpan { page: page_index as u32, start: start as u32, len };
            proof {
                assert(self.page(page_index as int) == before.page(page_index as int) + appended);
                assert forall|old_span: ArenaSpan| #[trigger]
                    before.range(old_span) is Some implies self.range(old_span) == before.range(
                    old_span,
                ) by {
                    if old_span.len > 0 {
                        assert(self.range(old_span)->Some_0 =~= before.range(old_span)->Some_0);
                    }
                }
                assert(self.range(span)->Some_0 =~= appended);
                if before.compact() {
                    assert forall|page: int| 0 <= page < self.pages@.len() implies (
                    #[trigger] self.page(page)).len() <= self.elements by {
                        assert(before.page(page).len() <= before.elements);
                    }
                }
            }
            return Ok(span);
        }
        if page_total as u64 > u32::MAX as u64 || page_total == usize::MAX {
            return Err("arena page count exceeds u32");
        }
        let mut page: Vec<T> = Vec::with_capacity(
            if capacity > values.len() {
                capacity
            } else {
                values.len()
            },
        );
        page.append(&mut values);
        let ghost before = *self;
        self.pages.push(Handle::new(page));
        self.elements = final_elements;
        let span = ArenaSpan { page: page_total as u32, start: 0, len };
        proof {
            assert(self.page(page_total as int) =~= appended);
            if before.compact() {
                assert forall|page: int| 0 <= page < self.pages@.len() implies (
                #[trigger] self.page(page)).len() <= self.elements by {
                    if page < page_total {
                        assert(before.page(page).len() <= before.elements);
                    }
                }
            }
            assert forall|old_span: ArenaSpan| #[trigger]
                before.range(old_span) is Some implies self.range(old_span) == before.range(
                old_span,
            ) by {}
            assert(self.range(span)->Some_0 =~= appended);
        }
        Ok(span)
    }
}

} // verus!
