//! What the library takes from the `bytes`, `memchr` and `smallvec` crates,
//! and what it relies on them to do.
//!
//! Running out of memory is not covered by any contract here: each one speaks
//! of a call that returns. A buffer whose allocation would pass `isize::MAX`
//! bytes, with its spare capacity and the bytes split off before it counted
//! in, has run out of memory in this sense.
use bytes::BufMut;
use bytes::{Bytes, BytesMut};
use crate::forwarded::ForwardedElement;
use crate::h1::parser::RawField;
use crate::text::occurs_at;
use smallvec::SmallVec;
use vstd::prelude::*;

verus! {

/// `bytes::BytesMut`, a growable byte buffer.
#[verifier::external_type_specification]
#[verifier::external_body]
pub struct ExBytesMut(BytesMut);

/// `bytes::Bytes`, a shared, immutable byte string.
#[verifier::external_type_specification]
#[verifier::external_body]
pub struct ExBytes(Bytes);

/// The bytes that a buffer holds.
pub uninterp spec fn content(b: BytesMut) -> Seq<u8>;

/// The bytes that a frozen buffer holds.
pub uninterp spec fn frozen(b: Bytes) -> Seq<u8>;

/// Whether a buffer that holds `len` bytes can take `n` more: no allocation
/// exceeds `isize::MAX` bytes.
pub open spec fn has_room(len: int, n: int) -> bool {
    len + n <= isize::MAX
}

/// `BytesMut::len` gives the number of bytes held.
pub assume_specification[ BytesMut::len ](b: &BytesMut) -> (r: usize)
    ensures
        r == content(*b).len(),
;

/// `BytesMut::extend_from_slice` appends the slice and keeps what was there.
pub assume_specification[ BytesMut::extend_from_slice ](b: &mut BytesMut, extend: &[u8])
    requires
        has_room(content(*old(b)).len() as int, extend@.len() as int),
    ensures
        content(*final(b)) == content(*old(b)) + extend@,
;

/// `BytesMut::split_off` keeps the first `at` bytes and returns the rest. It
/// panics past the capacity; up to the length it does not.
pub assume_specification[ BytesMut::split_off ](b: &mut BytesMut, at: usize) -> (r: BytesMut)
    requires
        at <= content(*old(b)).len(),
    ensures
        content(*final(b)) == content(*old(b)).take(at as int),
        content(r) == content(*old(b)).skip(at as int),
;

/// `BytesMut::freeze` turns a buffer into a `Bytes` that holds the same bytes.
pub assume_specification[ BytesMut::freeze ](b: BytesMut) -> (r: Bytes)
    ensures
        frozen(r) == content(b),
;

/// `<Bytes as Clone>::clone` shares the same bytes.
pub assume_specification[ <Bytes as Clone>::clone ](b: &Bytes) -> (r: Bytes)
    ensures
        frozen(r) == frozen(*b),
;

/// `Bytes::new` makes an empty byte string.
pub assume_specification[ Bytes::new ]() -> (r: Bytes)
    ensures
        frozen(r) == Seq::<u8>::empty(),
;

/// `BytesMut::new` makes an empty buffer.
pub assume_specification[ BytesMut::new ]() -> (r: BytesMut)
    ensures
        content(r) == Seq::<u8>::empty(),
;

/// `<BytesMut as BufMut>::put_u8` appends one byte.
#[verifier::external_body]
pub(crate) fn put_u8(b: &mut BytesMut, n: u8)
    requires
        has_room(content(*old(b)).len() as int, 1),
    ensures
        content(*final(b)) == content(*old(b)).push(n),
{
    b.put_u8(n);
}

/// `<BytesMut as AsRef<[u8]>>::as_ref` lends the bytes held.
#[verifier::external_body]
pub(crate) fn buffer_of(b: &BytesMut) -> (r: &[u8])
    ensures
        r@ == content(*b),
{
    b.as_ref()
}

/// `<Bytes as AsRef<[u8]>>::as_ref` lends the bytes held.
#[verifier::external_body]
pub(crate) fn bytes_of(b: &Bytes) -> (r: &[u8])
    ensures
        r@ == frozen(*b),
{
    b.as_ref()
}

/// `memchr::memmem::find` gives the first position of a non-empty needle.
#[verifier::external_body]
pub(crate) fn find_sub(haystack: &[u8], needle: &[u8]) -> (r: Option<usize>)
    requires
        needle@.len() > 0,
    ensures
        match r {
            Some(i) => occurs_at(haystack@, needle@, i as int) && forall|j: int|
                0 <= j < i ==> !occurs_at(haystack@, needle@, j),
            None => forall|j: int| !occurs_at(haystack@, needle@, j),
        },
{
    memchr::memmem::find(haystack, needle)
}

/// `memchr::memchr3` gives the first position of any of three bytes.
#[verifier::external_body]
pub(crate) fn find_any3(a: u8, b: u8, c: u8, haystack: &[u8]) -> (r: Option<usize>)
    ensures
        match r {
            Some(i) => i < haystack@.len() && (haystack@[i as int] == a || haystack@[i as int] == b
                || haystack@[i as int] == c) && forall|j: int|
                0 <= j < i ==> haystack@[j] != a && haystack@[j] != b && haystack@[j] != c,
            None => forall|j: int|
                0 <= j < haystack@.len() ==> haystack@[j] != a && haystack@[j] != b && haystack@[j]
                    != c,
        },
{
    memchr::memchr3(a, b, c, haystack)
}

/// The most items that a list may hold before another is pushed. `SmallVec`
/// panics where its next capacity, a power of two, overflows an allocation;
/// up to here it does not.
pub open spec fn list_cap() -> int {
    65536
}

/// A `SmallVec` of `(offset, length)` pairs.
#[verifier::external_body]
#[derive(Debug)]
pub struct PairList {
    inner: SmallVec<[(u32, u32); 8]>,
}

/// The pairs that a list holds, in order.
pub uninterp spec fn pairs(l: PairList) -> Seq<(u32, u32)>;

impl PairList {
    /// `SmallVec::new` makes an empty list.
    #[verifier::external_body]
    pub(crate) fn new() -> (r: PairList)
        ensures
            pairs(r) == Seq::<(u32, u32)>::empty(),
    {
        PairList { inner: SmallVec::new() }
    }

    /// `SmallVec::push` appends one item.
    #[verifier::external_body]
    pub(crate) fn push(&mut self, item: (u32, u32))
        requires
            pairs(*old(self)).len() < list_cap(),
        ensures
            pairs(*final(self)) == pairs(*old(self)).push(item),
    {
        self.inner.push(item);
    }

    /// `SmallVec::as_slice` lends the items in order.
    #[verifier::external_body]
    pub(crate) fn as_slice(&self) -> (r: &[(u32, u32)])
        ensures
            r@ == pairs(*self),
    {
        self.inner.as_slice()
    }
}

/// A `SmallVec` of parsed field lines.
#[verifier::external_body]
#[derive(Debug)]
pub struct RawFieldList {
    inner: SmallVec<[RawField; 32]>,
}

/// The field lines that a list holds, in order.
pub uninterp spec fn raw_fields(l: RawFieldList) -> Seq<RawField>;

impl RawFieldList {
    /// `SmallVec::new` makes an empty list.
    #[verifier::external_body]
    pub(crate) fn new() -> (r: RawFieldList)
        ensures
            raw_fields(r) == Seq::<RawField>::empty(),
    {
        RawFieldList { inner: SmallVec::new() }
    }

    /// `SmallVec::reserve` makes room and keeps the items. It panics where the
    /// room overflows an allocation; up to the stated bound it does not.
    #[verifier::external_body]
    pub(crate) fn reserve(&mut self, additional: usize)
        requires
            raw_fields(*old(self)).len() + additional <= list_cap(),
        ensures
            raw_fields(*final(self)) == raw_fields(*old(self)),
    {
        self.inner.reserve(additional);
    }

    /// `SmallVec::push` appends one item.
    #[verifier::external_body]
    pub(crate) fn push(&mut self, item: RawField)
        requires
            raw_fields(*old(self)).len() < list_cap(),
        ensures
            raw_fields(*final(self)) == raw_fields(*old(self)).push(item),
    {
        self.inner.push(item);
    }

    /// `SmallVec::as_slice` lends the items in order.
    #[verifier::external_body]
    pub(crate) fn as_slice(&self) -> (r: &[RawField])
        ensures
            r@ == raw_fields(*self),
    {
        self.inner.as_slice()
    }
}

/// A `SmallVec` of forwarding chain elements.
#[verifier::external_body]
#[derive(Debug)]
pub struct ElementList {
    inner: SmallVec<[ForwardedElement; 8]>,
}

/// The elements that a list holds, in order.
pub uninterp spec fn chain_elements(l: ElementList) -> Seq<ForwardedElement>;

impl ElementList {
    /// `SmallVec::new` makes an empty list.
    #[verifier::external_body]
    pub(crate) fn new() -> (r: ElementList)
        ensures
            chain_elements(r) == Seq::<ForwardedElement>::empty(),
    {
        ElementList { inner: SmallVec::new() }
    }

    /// `SmallVec::reserve` makes room and keeps the items. It panics where the
    /// room overflows an allocation; up to the stated bound it does not.
    #[verifier::external_body]
    pub(crate) fn reserve(&mut self, additional: usize)
        requires
            chain_elements(*old(self)).len() + additional <= list_cap(),
        ensures
            chain_elements(*final(self)) == chain_elements(*old(self)),
    {
        self.inner.reserve(additional);
    }

    /// `SmallVec::push` appends one item.
    #[verifier::external_body]
    pub(crate) fn push(&mut self, item: ForwardedElement)
        requires
            chain_elements(*old(self)).len() < list_cap(),
        ensures
            chain_elements(*final(self)) == chain_elements(*old(self)).push(item),
    {
        self.inner.push(item);
    }

    /// `SmallVec::pop` takes the last item, if there is one.
    #[verifier::external_body]
    pub(crate) fn pop(&mut self) -> (r: Option<ForwardedElement>)
        ensures
            match r {
                Some(e) => chain_elements(*old(self)).len() > 0 && e == chain_elements(
                    *old(self),
                ).last() && chain_elements(*final(self)) == chain_elements(*old(self)).drop_last(),
                None => chain_elements(*old(self)).len() == 0 && chain_elements(*final(self))
                    == chain_elements(*old(self)),
            },
    {
        self.inner.pop()
    }

    /// `SmallVec::as_slice` lends the items in order.
    #[verifier::external_body]
    pub(crate) fn as_slice(&self) -> (r: &[ForwardedElement])
        ensures
            r@ == chain_elements(*self),
    {
        self.inner.as_slice()
    }
}

} // verus!
