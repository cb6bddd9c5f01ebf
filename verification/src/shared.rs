//! Immutable flat columns whose bytes are owned by one reference-counted allocation.

use std::sync::Arc;
use vstd::prelude::*;

verus! {

/// A value of `T` and its clone are the same value. Copy-on-write storage relies on it: a page that
/// is cloned because an older generation still holds it has to read like the page it replaces.
pub open spec fn clone_faithful<T: Clone>() -> bool {
    forall|value: T, copy: T| cloned(value, copy) ==> value == copy
}

/// `Arc::clone`: one more owner of the same value.
#[verifier::external_body]
pub(crate) fn share<T: ?Sized>(value: &Arc<T>) -> (owner: Arc<T>)
    ensures
        owner == *value,
{
    Arc::clone(value)
}

/// `Arc::make_mut`: exclusive access to the value, which is the value itself when nobody else owns
/// it and its clone otherwise. What is written through the reference is what the owner then holds.
#[verifier::external_body]
pub(crate) fn make_mut<T: Clone>(owner: &mut Arc<T>) -> (value: &mut T)
    ensures
        *value == **old(owner) || cloned(**old(owner), *value),
        **final(owner) == *final(value),
{
    Arc::make_mut(owner)
}

/// `Arc::ptr_eq`: whether two owners hold one allocation, hence one value. Two allocations may hold
/// equal values, so nothing is said of the values when the answer is no.
#[verifier::external_body]
pub(crate) fn same_allocation<T: ?Sized>(first: &Arc<T>, second: &Arc<T>) -> (same: bool)
    ensures
        same ==> *first == *second,
{
    Arc::ptr_eq(first, second)
}

/// A window of one immutable shared allocation.
pub struct SharedFlat<T> {
    owner: Arc<[T]>,
    start: usize,
    len: usize,
}

impl<T> View for SharedFlat<T> {
    type V = Seq<T>;

    closed spec fn view(&self) -> Seq<T> {
        self.owner@.subrange(self.start as int, self.start + self.len)
    }
}

impl<T> SharedFlat<T> {
    /// The window lies inside its allocation.
    #[verifier::type_invariant]
    closed spec fn inside(&self) -> bool {
        self.start + self.len <= self.owner@.len() && self.start + self.len <= usize::MAX
    }

    /// The values of the whole allocation.
    pub closed spec fn allocation(&self) -> Seq<T> {
        self.owner@
    }

    /// Where the window starts in its allocation.
    pub closed spec fn spec_start(&self) -> int {
        self.start as int
    }

    /// A window over a whole allocation.
    pub fn from_arc_slice(values: Arc<[T]>) -> (flat: std::result::Result<Self, &'static str>)
        ensures
            flat is Ok,
            flat->Ok_0@ == values@,
            flat->Ok_0.allocation() == values@,
            flat->Ok_0.spec_start() == 0,
    {
        let len: usize = values.len();
        let flat = SharedFlat { owner: values, start: 0, len };
        assert(flat@ == values@);
        Ok(flat)
    }

    pub fn len(&self) -> (len: usize)
        ensures
            len == self@.len(),
    {
        proof {
            use_type_invariant(self);
        }
        self.len
    }

    pub fn is_empty(&self) -> (empty: bool)
        ensures
            empty == (self@.len() == 0),
    {
        self.len() == 0
    }

    pub fn as_slice(&self) -> (values: &[T])
        ensures
            values@ == self@,
    {
        proof {
            use_type_invariant(self);
        }
        &self.owner[self.start..self.start + self.len]
    }

    /// A narrower window over the same allocation.
    pub fn slice(&self, offset: usize, len: usize) -> (flat: std::result::Result<
        Self,
        &'static str,
    >)
        ensures
            match flat {
                Ok(window) => {
                    &&& offset + len <= self@.len()
                    &&& window@ == self@.subrange(offset as int, offset + len)
                    &&& window.allocation() == self.allocation()
                    &&& window.spec_start() == self.spec_start() + offset
                },
                Err(message) => offset + len > self@.len() && message@
                    == "shared slice is out of bounds"@,
            },
    {
        proof {
            use_type_invariant(self);
        }
        if offset > self.len || len > self.len - offset {
            return Err("shared slice is out of bounds");
        }
        let window = SharedFlat { owner: share(&self.owner), start: self.start + offset, len };
        assert(window@ == self@.subrange(offset as int, offset + len));
        Ok(window)
    }

    /// Whether `next` starts where this window starts, in the same allocation, and reaches at least
    /// as far. Whether two windows share an allocation is a fact about the process, so a negative
    /// answer says nothing of the values.
    pub fn is_prefix_of(&self, next: &Self) -> (prefix: bool)
        ensures
            prefix ==> self.allocation() == next.allocation() && self.spec_start()
                == next.spec_start() && self@.len() <= next@.len(),
            prefix ==> self@.is_prefix_of(next@),
    {
        let same_owner = same_allocation(&self.owner, &next.owner);
        self.is_prefix_within(next, same_owner)
    }

    /// Whether `next` starts where this window starts and reaches at least as far, given whether both
    /// lie in one allocation.
    pub fn is_prefix_within(&self, next: &Self, same_owner: bool) -> (prefix: bool)
        requires
            same_owner ==> self.allocation() == next.allocation(),
        ensures
            prefix == (same_owner && self.spec_start() == next.spec_start() && self@.len()
                <= next@.len()),
            prefix ==> self@.is_prefix_of(next@),
    {
        proof {
            use_type_invariant(self);
            use_type_invariant(next);
        }
        let prefix = same_owner && self.start == next.start && self.len <= next.len;
        assert(prefix ==> self@ =~= next@.subrange(0, self@.len() as int));
        prefix
    }
}

impl<T> Clone for SharedFlat<T> {
    fn clone(&self) -> (copy: Self)
        ensures
            copy == *self,
    {
        proof {
            use_type_invariant(self);
        }
        SharedFlat { owner: share(&self.owner), start: self.start, len: self.len }
    }
}

/// The values of a slice in an allocation of their own.
pub(crate) fn detach<T: Clone>(values: &[T]) -> (owned: Vec<T>)
    requires
        clone_faithful::<T>(),
    ensures
        owned@ == values@,
{
    let mut owned: Vec<T> = Vec::with_capacity(values.len());
    owned.extend_from_slice(values);
    assert(owned@ =~= values@);
    owned
}

/// A flat column: values of its own or a window of a shared allocation. Cloning copies no value.
pub enum FlatColumn<T> {
    Owned(Arc<Vec<T>>),
    Shared(SharedFlat<T>),
}

impl<T> View for FlatColumn<T> {
    type V = Seq<T>;

    open spec fn view(&self) -> Seq<T> {
        match self {
            FlatColumn::Owned(values) => values@,
            FlatColumn::Shared(values) => values@,
        }
    }
}

impl<T> FlatColumn<T> {
    pub fn from_vec(values: Vec<T>) -> (column: Self)
        ensures
            column is Owned,
            column@ == values@,
    {
        FlatColumn::Owned(Arc::new(values))
    }

    pub fn from_shared(values: SharedFlat<T>) -> (column: Self)
        ensures
            column == FlatColumn::Shared(values),
    {
        FlatColumn::Shared(values)
    }

    pub fn as_slice(&self) -> (values: &[T])
        ensures
            values@ == self@,
    {
        match self {
            FlatColumn::Owned(values) => values.as_slice(),
            FlatColumn::Shared(values) => values.as_slice(),
        }
    }
}

impl<T> Clone for FlatColumn<T> {
    fn clone(&self) -> (copy: Self)
        ensures
            copy == *self,
    {
        match self {
            FlatColumn::Owned(values) => FlatColumn::Owned(share(values)),
            FlatColumn::Shared(values) => FlatColumn::Shared(values.clone()),
        }
    }
}

/// A shared value. A clone is one more owner of the same value.
pub struct Handle<T> {
    value: Arc<T>,
}

impl<T> Handle<T> {
    /// The value that the handle owns.
    pub closed spec fn spec_value(&self) -> T {
        *self.value
    }

    pub fn new(value: T) -> (handle: Self)
        ensures
            handle.spec_value() == value,
    {
        Handle { value: Arc::new(value) }
    }

    pub fn value(&self) -> (value: &T)
        ensures
            *value == self.spec_value(),
    {
        &*self.value
    }

    /// Exclusive access to the value, or to its clone when another handle owns it too.
    pub fn value_mut(&mut self) -> (value: &mut T) where T: Clone
        ensures
            *value == old(self).spec_value() || cloned(old(self).spec_value(), *value),
            final(self).spec_value() == *final(value),
    {
        make_mut(&mut self.value)
    }
}

impl<T> Clone for Handle<T> {
    fn clone(&self) -> (copy: Self)
        ensures
            copy == *self,
    {
        Handle { value: share(&self.value) }
    }
}

/// A handle and its clone are the same value.
pub proof fn lemma_handle_faithful<T>()
    ensures
        clone_faithful::<Handle<T>>(),
{
}

} // verus!
