//! A section of validated fields, and the builder that compacts one into a
//! shared buffer.
use crate::error::RejectReason;
use crate::ext::{buffer_of, bytes_of, content, frozen, has_room};
use crate::field::{
    all_value_bytes, canonical_name, name_error, normalize_name_into, underscore_refused,
    validate_name, validate_value, value_error, UnderscorePolicy,
};
use crate::hlist::{BudgetView, HeaderListBudget};
use crate::known::{classify, classify_spec, KnownHeader};
use crate::limits::{ClampedLimits, Limits};
use crate::scalar::WireVersion;
use crate::text::{bytes_eq, lower_all, slice_at, to_lower, views};
use bytes::{Bytes, BytesMut};
use vstd::prelude::*;
use vstd::slice::slice_subrange;

verus! {

/// One field: its canonical name and its value.
pub struct Field {
    pub name: Seq<u8>,
    pub value: Seq<u8>,
}

impl Field {
    /// Which known field this is.
    pub open spec fn known(self) -> KnownHeader {
        classify_spec(self.name)
    }
}

/// What the fields of a section cost: each its name, its value and 32 bytes.
pub open spec fn section_cost(fields: Seq<Field>) -> int
    decreases fields.len(),
{
    if fields.len() == 0 {
        0
    } else {
        section_cost(fields.drop_last()) + fields.last().name.len() + fields.last().value.len() + 32
    }
}

/// Whether a field could have been pushed: a valid name, and a value without
/// NUL, CR and LF.
pub open spec fn field_ok(f: Field) -> bool {
    name_error(f.name) is None && all_value_bytes(f.value)
}

/// What holds of every section.
pub open spec fn section_ok(fields: Seq<Field>) -> bool {
    &&& forall|i: int| 0 <= i < fields.len() ==> field_ok(#[trigger] fields[i])
    &&& section_cost(fields) <= Limits::ceiling_spec().max_header_list_bytes
}

/// Where one field stands in the section's buffer.
#[derive(Copy, Clone, Debug)]
pub struct FieldSlot {
    known: KnownHeader,
    name_at: usize,
    name_len: usize,
    value_at: usize,
    value_len: usize,
}

impl View for FieldSlot {
    type V = KnownHeader;

    closed spec fn view(&self) -> KnownHeader {
        self.known
    }
}

impl FieldSlot {
    /// Which known field it is.
    #[must_use]
    pub fn known(&self) -> (r: KnownHeader)
        ensures
            r == self@,
    {
        self.known
    }

    closed spec fn within(self, buf: Seq<u8>) -> bool {
        self.name_at + self.name_len <= buf.len() && self.value_at + self.value_len <= buf.len()
    }

    closed spec fn field(self, buf: Seq<u8>) -> Field {
        Field {
            name: buf.subrange(self.name_at as int, self.name_at + self.name_len),
            value: buf.subrange(self.value_at as int, self.value_at + self.value_len),
        }
    }
}

spec fn slots_fields(slots: Seq<FieldSlot>, buf: Seq<u8>) -> Seq<Field> {
    Seq::new(slots.len(), |i: int| slots[i].field(buf))
}

spec fn slots_ok(slots: Seq<FieldSlot>, buf: Seq<u8>) -> bool {
    forall|i: int|
        0 <= i < slots.len() ==> (#[trigger] slots[i]).within(buf) && slots[i].known
            == slots[i].field(buf).known()
}

/// A section of fields, each with a canonical name and a validated value.
#[derive(Debug)]
pub struct FieldSection {
    buf: Bytes,
    slots: Vec<FieldSlot>,
}

impl View for FieldSection {
    type V = Seq<Field>;

    closed spec fn view(&self) -> Seq<Field> {
        slots_fields(self.slots@, frozen(self.buf))
    }
}

/// The fields other than those that are `k`.
pub open spec fn without(fields: Seq<Field>, k: KnownHeader) -> Seq<Field> {
    fields.filter(|f: Field| f.known() != k)
}

/// The values of the fields that are `k`, in order.
pub open spec fn values_of(fields: Seq<Field>, k: KnownHeader) -> Seq<Seq<u8>>
    decreases fields.len(),
{
    if fields.len() == 0 {
        Seq::empty()
    } else if fields.last().known() == k {
        values_of(fields.drop_last(), k).push(fields.last().value)
    } else {
        values_of(fields.drop_last(), k)
    }
}

/// The values of the fields named `name`, in order.
pub open spec fn values_named(fields: Seq<Field>, name: Seq<u8>) -> Seq<Seq<u8>>
    decreases fields.len(),
{
    if fields.len() == 0 {
        Seq::empty()
    } else if fields.last().name == name {
        values_named(fields.drop_last(), name).push(fields.last().value)
    } else {
        values_named(fields.drop_last(), name)
    }
}

/// That a field which may occur once occurred more often.
#[derive(Copy, Clone, Debug, PartialEq, Eq, Structural)]
pub struct Duplicate;

/// Dropping fields costs nothing.
pub proof fn lemma_filter_ok(fields: Seq<Field>, keep: spec_fn(Field) -> bool)
    requires
        section_ok(fields),
    ensures
        section_ok(fields.filter(keep)),
        section_cost(fields.filter(keep)) <= section_cost(fields),
    decreases fields.len(),
{
    reveal(Seq::filter);
    if fields.len() > 0 {
        let rest = fields.drop_last();
        assert forall|i: int| 0 <= i < rest.len() implies field_ok(#[trigger] rest[i]) by {
            assert(field_ok(fields[i]));
        }
        lemma_filter_ok(rest, keep);
        let out = fields.filter(keep);
        assert(field_ok(fields[fields.len() - 1]));
        if keep(fields.last()) {
            assert(out.drop_last() =~= rest.filter(keep));
        }
    }
}

proof fn lemma_cost_nonneg(fields: Seq<Field>)
    ensures
        section_cost(fields) >= 32 * fields.len(),
    decreases fields.len(),
{
    if fields.len() > 0 {
        lemma_cost_nonneg(fields.drop_last());
    }
}

impl Clone for FieldSection {
    fn clone(&self) -> (r: Self)
        ensures
            r@ == self@,
    {
        proof {
            use_type_invariant(self);
        }
        let mut slots: Vec<FieldSlot> = Vec::new();
        let mut i: usize = 0;
        while i < self.slots.len()
            invariant
                i <= self.slots@.len(),
                slots@ == self.slots@.take(i as int),
            decreases self.slots@.len() - i,
        {
            slots.push(self.slots[i]);
            i += 1;
            assert(slots@ =~= self.slots@.take(i as int));
        }
        assert(slots@ =~= self.slots@);
        FieldSection { buf: self.buf.clone(), slots }
    }
}

impl FieldSection {
    #[verifier::type_invariant]
    closed spec fn inv(self) -> bool {
        &&& slots_ok(self.slots@, frozen(self.buf))
        &&& section_ok(self@)
    }

    /// The fields' slots, in order.
    #[must_use]
    pub fn slots(&self) -> (r: &[FieldSlot])
        ensures
            r@.len() == self@.len(),
            forall|i: int| 0 <= i < r@.len() ==> (#[trigger] r@[i])@ == self@[i].known(),
            section_ok(self@),
    {
        proof {
            use_type_invariant(self);
        }
        self.slots.as_slice()
    }

    /// The number of fields.
    #[must_use]
    pub fn len(&self) -> (r: usize)
        ensures
            r == self@.len(),
            r <= section_cost(self@) / 32,
            section_ok(self@),
    {
        proof {
            use_type_invariant(self);
            lemma_cost_nonneg(self@);
        }
        self.slots.len()
    }

    /// Whether there is no field.
    #[must_use]
    pub fn is_empty(&self) -> (r: bool)
        ensures
            r == (self@.len() == 0),
    {
        self.slots.len() == 0
    }

    /// The name of the field at `i`.
    #[must_use]
    pub fn name_at(&self, i: usize) -> (r: Option<&[u8]>)
        ensures
            match r {
                Some(n) => i < self@.len() && n@ == self@[i as int].name,
                None => i >= self@.len(),
            },
    {
        proof {
            use_type_invariant(self);
        }
        if i < self.slots.len() {
            let s: FieldSlot = self.slots[i];
            assert(self.slots@[i as int].within(frozen(self.buf)));
            Some(slice_at(bytes_of(&self.buf), s.name_at, s.name_len))
        } else {
            None
        }
    }

    /// The value of the field at `i`.
    #[must_use]
    pub fn value_at(&self, i: usize) -> (r: Option<&[u8]>)
        ensures
            match r {
                Some(v) => i < self@.len() && v@ == self@[i as int].value,
                None => i >= self@.len(),
            },
    {
        proof {
            use_type_invariant(self);
        }
        if i < self.slots.len() {
            let s: FieldSlot = self.slots[i];
            assert(self.slots@[i as int].within(frozen(self.buf)));
            Some(slice_at(bytes_of(&self.buf), s.value_at, s.value_len))
        } else {
            None
        }
    }

    fn value_of_slot(&self, i: usize) -> (r: &[u8])
        requires
            i < self@.len(),
        ensures
            r@ == self@[i as int].value,
    {
        proof {
            use_type_invariant(self);
        }
        let s: FieldSlot = self.slots[i];
        assert(self.slots@[i as int].within(frozen(self.buf)));
        slice_at(bytes_of(&self.buf), s.value_at, s.value_len)
    }

    /// The values of the fields that are `k`, in order.
    #[must_use]
    pub fn get_all_known(&self, k: KnownHeader) -> (r: Vec<&[u8]>)
        ensures
            views(r@) == values_of(self@, k),
    {
        proof {
            use_type_invariant(self);
        }
        let mut out: Vec<&[u8]> = Vec::new();
        let mut i: usize = 0;
        proof {
            assert(views(out@) =~= values_of(self@.take(0), k));
        }
        while i < self.slots.len()
            invariant
                i <= self.slots@.len(),
                self.slots@.len() == self@.len(),
                slots_ok(self.slots@, frozen(self.buf)),
                views(out@) == values_of(self@.take(i as int), k),
            decreases self.slots@.len() - i,
        {
            let ghost before = out@;
            proof {
                assert(self@.take(i + 1).drop_last() =~= self@.take(i as int));
                assert(self.slots@[i as int].known == self@[i as int].known());
            }
            if self.slots[i].known == k {
                out.push(self.value_of_slot(i));
                proof {
                    assert(views(out@) =~= views(before).push(self@[i as int].value));
                }
            }
            i += 1;
        }
        proof {
            assert(self@.take(i as int) =~= self@);
        }
        out
    }

    /// The number of fields that are `k`.
    #[must_use]
    pub fn count_known(&self, k: KnownHeader) -> (r: usize)
        ensures
            r == values_of(self@, k).len(),
    {
        self.get_all_known(k).len()
    }

    /// Whether a field is `k`.
    #[must_use]
    pub fn contains_known(&self, k: KnownHeader) -> (r: bool)
        ensures
            r == (values_of(self@, k).len() > 0),
    {
        self.get_all_known(k).len() > 0
    }

    /// The value of the one field that is `k`, if there is one.
    pub fn get_unique_known(&self, k: KnownHeader) -> (r: Result<Option<&[u8]>, Duplicate>)
        ensures
            match r {
                Ok(None) => values_of(self@, k).len() == 0,
                Ok(Some(v)) => values_of(self@, k) == seq![v@],
                Err(_) => values_of(self@, k).len() > 1,
            },
    {
        let all = self.get_all_known(k);
        if all.len() == 0 {
            Ok(None)
        } else if all.len() == 1 {
            proof {
                assert(views(all@) =~= seq![all@[0]@]);
            }
            Ok(Some(all[0]))
        } else {
            Err(Duplicate)
        }
    }

    /// The value of the one field named `name`, if there is one.
    pub fn get_unique(&self, name: &[u8]) -> (r: Result<Option<&[u8]>, Duplicate>)
        ensures
            match r {
                Ok(None) => values_named(self@, name@).len() == 0,
                Ok(Some(v)) => values_named(self@, name@) == seq![v@],
                Err(_) => values_named(self@, name@).len() > 1,
            },
    {
        let mut out: Vec<&[u8]> = Vec::new();
        let mut i: usize = 0;
        let n: usize = self.len();
        proof {
            assert(views(out@) =~= values_named(self@.take(0), name@));
        }
        while i < n
            invariant
                i <= n,
                n == self@.len(),
                views(out@) == values_named(self@.take(i as int), name@),
            decreases n - i,
        {
            let ghost before = out@;
            proof {
                assert(self@.take(i + 1).drop_last() =~= self@.take(i as int));
            }
            if let Some(other) = self.name_at(i) {
                if bytes_eq(other, name) {
                    out.push(self.value_of_slot(i));
                    proof {
                        assert(views(out@) =~= views(before).push(self@[i as int].value));
                    }
                }
            }
            i += 1;
        }
        proof {
            assert(self@.take(i as int) =~= self@);
        }
        if out.len() == 0 {
            Ok(None)
        } else if out.len() == 1 {
            proof {
                assert(views(out@) =~= seq![out@[0]@]);
            }
            Ok(Some(out[0]))
        } else {
            Err(Duplicate)
        }
    }

    /// Removes every field that is `k`.
    pub fn remove_known(&mut self, k: KnownHeader)
        ensures
            final(self)@ == without(old(self)@, k),
    {
        let n: usize = self.slots().len();
        let mut keep: Vec<bool> = Vec::new();
        let mut i: usize = 0;
        while i < n
            invariant
                i <= n,
                n == self@.len(),
                *self == *old(self),
                keep@.len() == i,
                forall|j: int| 0 <= j < i ==> keep@[j] == (self@[j].known() != k),
            decreases n - i,
        {
            let known: KnownHeader = self.slots()[i].known();
            keep.push(known != k);
            i += 1;
        }
        let ghost pred = |f: Field| f.known() != k;
        self.retain(&keep, Ghost(pred));
    }

    /// Keeps the fields that `keep` marks.
    pub(crate) fn retain(&mut self, keep: &Vec<bool>, Ghost(pred): Ghost<spec_fn(Field) -> bool>)
        requires
            keep@.len() == old(self)@.len(),
            forall|i: int| 0 <= i < keep@.len() ==> #[trigger] keep@[i] == pred(old(self)@[i]),
        ensures
            final(self)@ == old(self)@.filter(pred),
    {
        proof {
            use_type_invariant(&*self);
        }
        let mut slots: Vec<FieldSlot> = Vec::new();
        let mut i: usize = 0;
        let ghost buf = frozen(self.buf);
        proof {
            reveal(Seq::filter);
            assert(slots_fields(slots@, buf) =~= self@.take(0).filter(pred));
        }
        while i < self.slots.len()
            invariant
                i <= self.slots@.len(),
                *self == *old(self),
                buf == frozen(self.buf),
                self.slots@.len() == self@.len(),
                keep@.len() == self@.len(),
                forall|j: int| 0 <= j < keep@.len() ==> #[trigger] keep@[j] == pred(self@[j]),
                slots_ok(self.slots@, buf),
                slots_ok(slots@, buf),
                slots_fields(slots@, buf) == self@.take(i as int).filter(pred),
            decreases self.slots@.len() - i,
        {
            let ghost before = slots@;
            proof {
                reveal(Seq::filter);
                assert(self@.take(i + 1).drop_last() =~= self@.take(i as int));
                assert(self.slots@[i as int].within(buf));
            }
            if keep[i] {
                slots.push(self.slots[i]);
                proof {
                    assert(slots_fields(slots@, buf) =~= slots_fields(before, buf).push(
                        self@[i as int],
                    ));
                }
            }
            i += 1;
        }
        proof {
            assert(self@.take(i as int) =~= self@);
            lemma_filter_ok(self@, pred);
        }
        *self = FieldSection { buf: self.buf.clone(), slots };
    }
}

/// The state of a [`FieldSectionBuilder`].
pub struct SectionState {
    /// The fields pushed so far.
    pub fields: Seq<Field>,
    /// The lowercased name that each was sent under.
    pub wires: Seq<Seq<u8>>,
    /// What they cost.
    pub budget: BudgetView,
}

impl SectionState {
    /// A section with no fields.
    pub open spec fn fresh(limits: Limits) -> SectionState {
        SectionState {
            fields: Seq::empty(),
            wires: Seq::empty(),
            budget: BudgetView::fresh(limits.max_header_list_bytes, limits.max_field_count),
        }
    }

    /// Whether a field of this canonical name was sent under another name.
    pub open spec fn collides(self, name: Seq<u8>, wire: Seq<u8>) -> bool {
        exists|i: int|
            0 <= i < self.fields.len() && #[trigger] self.fields[i].name == name && self.wires[i]
                != wire
    }

    /// Why a field is refused before it is charged.
    pub open spec fn syntax_error(
        self,
        name: Seq<u8>,
        wire: Seq<u8>,
        value: Seq<u8>,
        version: WireVersion,
    ) -> Option<RejectReason> {
        if name_error(name) is Some {
            name_error(name)
        } else if value_error(value, version) is Some {
            value_error(value, version)
        } else if self.collides(name, wire) {
            Some(RejectReason::FieldNameUnderscore)
        } else {
            None
        }
    }

    /// Why a field is refused.
    pub open spec fn add_error(
        self,
        name: Seq<u8>,
        wire: Seq<u8>,
        value: Seq<u8>,
        version: WireVersion,
    ) -> Option<RejectReason> {
        match self.syntax_error(name, wire, value, version) {
            Some(e) => Some(e),
            None => match self.budget.charge_result(name.len() as int, value.len() as int) {
                Ok(()) => None,
                Err(e) => Some(e),
            },
        }
    }

    /// The state after a field was offered.
    pub open spec fn added(
        self,
        name: Seq<u8>,
        wire: Seq<u8>,
        value: Seq<u8>,
        version: WireVersion,
    ) -> SectionState {
        if self.syntax_error(name, wire, value, version) is Some {
            self
        } else {
            let budget = self.budget.charged(name.len() as int, value.len() as int);
            if self.add_error(name, wire, value, version) is Some {
                SectionState { budget, ..self }
            } else {
                SectionState {
                    fields: self.fields.push(Field { name, value }),
                    wires: self.wires.push(wire),
                    budget,
                }
            }
        }
    }

    /// Why a field under its wire name is refused.
    pub open spec fn add_raw_error(
        self,
        raw: Seq<u8>,
        policy: UnderscorePolicy,
        value: Seq<u8>,
        version: WireVersion,
    ) -> Option<RejectReason> {
        if underscore_refused(raw, policy) {
            Some(RejectReason::FieldNameUnderscore)
        } else {
            self.add_error(canonical_name(raw), lower_all(raw), value, version)
        }
    }

    /// The state after a field under its wire name was offered.
    pub open spec fn added_raw(
        self,
        raw: Seq<u8>,
        policy: UnderscorePolicy,
        value: Seq<u8>,
        version: WireVersion,
    ) -> SectionState {
        if underscore_refused(raw, policy) {
            self
        } else {
            self.added(canonical_name(raw), lower_all(raw), value, version)
        }
    }
}

/// Builds a section at the end of a buffer, over as many calls as it takes.
/// It holds no borrow of the buffer: every call must be given the same one,
/// grown by nothing but appending.
#[derive(Debug)]
pub struct FieldSectionBuilder {
    base: usize,
    slots: Vec<FieldSlot>,
    wires: Vec<Vec<u8>>,
    budget: HeaderListBudget,
}

impl FieldSectionBuilder {
    /// The length of the buffer when the builder was made.
    pub closed spec fn base_spec(&self) -> int {
        self.base as int
    }

    closed spec fn wires_spec(&self) -> Seq<Seq<u8>> {
        Seq::new(self.wires@.len(), |i: int| self.wires@[i]@)
    }

    /// What was built so far, as it stands in the buffer.
    pub closed spec fn state(&self, arena: Seq<u8>) -> SectionState {
        SectionState {
            fields: slots_fields(self.slots@, arena.skip(self.base as int)),
            wires: self.wires_spec(),
            budget: self.budget@,
        }
    }

    /// Whether `arena` is a buffer that this builder can go on with.
    pub closed spec fn wf(&self, arena: Seq<u8>) -> bool {
        &&& self.base <= arena.len()
        &&& self.budget.wf()
        &&& self.budget@.limit <= Limits::ceiling_spec().max_header_list_bytes
        &&& self.wires@.len() == self.slots@.len()
        &&& slots_ok(self.slots@, arena.skip(self.base as int))
        &&& forall|i: int|
            0 <= i < self.slots@.len() ==> field_ok(
                (#[trigger] self.slots@[i]).field(arena.skip(self.base as int)),
            )
        &&& section_cost(self.state(arena).fields) <= self.budget@.used
        &&& section_cost(self.state(arena).fields) <= self.budget@.limit
    }

    /// Appending to the buffer changes nothing of what was built.
    pub proof fn lemma_append(&self, arena: Seq<u8>, more: Seq<u8>)
        requires
            self.wf(arena),
        ensures
            self.wf(arena + more),
            self.state(arena + more) == self.state(arena),
    {
        let a = arena.skip(self.base as int);
        let b = (arena + more).skip(self.base as int);
        assert(b =~= a + more);
        assert forall|i: int| 0 <= i < self.slots@.len() implies (#[trigger] self.slots@[i]).within(
            b,
        ) && self.slots@[i].field(b) == self.slots@[i].field(a) by {
            let s = self.slots@[i];
            assert(s.within(a));
            assert(s.field(b).name =~= s.field(a).name);
            assert(s.field(b).value =~= s.field(a).value);
        }
        assert(slots_fields(self.slots@, b) =~= slots_fields(self.slots@, a));
    }

    /// A builder's base lies within its buffer, and what was built costs no
    /// more than the ceiling.
    pub proof fn lemma_base(&self, arena: Seq<u8>)
        requires
            self.wf(arena),
        ensures
            0 <= self.base_spec() <= arena.len(),
            section_cost(self.state(arena).fields)
                <= Limits::ceiling_spec().max_header_list_bytes,
    {
    }

    /// Starts a section at the end of `arena`.
    #[must_use]
    pub fn new(arena: &BytesMut, limits: &ClampedLimits) -> (r: Self)
        ensures
            r.wf(content(*arena)),
            r.base_spec() == content(*arena).len(),
            r.state(content(*arena)) == SectionState::fresh(limits@),
    {
        let l = limits.get();
        let r = FieldSectionBuilder {
            base: arena.len(),
            slots: Vec::new(),
            wires: Vec::new(),
            budget: HeaderListBudget::new(limits),
        };
        proof {
            let a = content(*arena);
            assert(r.state(a).fields =~= Seq::<Field>::empty());
            assert(r.state(a).wires =~= Seq::<Seq<u8>>::empty());
        }
        r
    }

    /// Whether a field of this canonical name was sent under another name.
    fn collides(&self, arena: &BytesMut, name: &[u8], wire: &[u8]) -> (r: bool)
        requires
            self.wf(content(*arena)),
        ensures
            r == self.state(content(*arena)).collides(name@, wire@),
    {
        let buf = buffer_of(arena);
        let region = slice_subrange(buf, self.base, buf.len());
        let ghost st = self.state(content(*arena));
        assert(region@ =~= content(*arena).skip(self.base as int));
        let mut i: usize = 0;
        while i < self.slots.len()
            invariant
                i <= self.slots@.len(),
                self.wires@.len() == self.slots@.len(),
                st == self.state(content(*arena)),
                region@ == content(*arena).skip(self.base as int),
                slots_ok(self.slots@, region@),
                forall|j: int|
                    0 <= j < i ==> (#[trigger] st.fields[j]).name == name@ ==> st.wires[j] == wire@,
            decreases self.slots@.len() - i,
        {
            let s: FieldSlot = self.slots[i];
            assert(self.slots@[i as int].within(region@));
            let other = slice_at(region, s.name_at, s.name_len);
            assert(st.fields[i as int].name == other@);
            if bytes_eq(other, name) && !bytes_eq(self.wires[i].as_slice(), wire) {
                return true;
            }
            i += 1;
        }
        false
    }

    /// Validates, charges and appends one field under its canonical name.
    fn add_field(
        &mut self,
        arena: &mut BytesMut,
        name: &[u8],
        wire: Vec<u8>,
        value: &[u8],
        version: WireVersion,
    ) -> (r: Result<(), RejectReason>)
        requires
            old(self).wf(content(*old(arena))),
            has_room(content(*old(arena)).len() as int, (name@.len() + value@.len()) as int),
        ensures
            final(self).wf(content(*final(arena))),
            final(self).base_spec() == old(self).base_spec(),
            final(self).state(content(*final(arena))) == old(self).state(
                content(*old(arena)),
            ).added(name@, wire@, value@, version),
            match r {
                Ok(()) => {
                    &&& old(self).state(content(*old(arena))).add_error(
                        name@,
                        wire@,
                        value@,
                        version,
                    ) is None
                    &&& content(*final(arena)) == content(*old(arena)) + name@ + value@
                },
                Err(e) => {
                    &&& old(self).state(content(*old(arena))).add_error(
                        name@,
                        wire@,
                        value@,
                        version,
                    ) == Some(e)
                    &&& content(*final(arena)) == content(*old(arena))
                },
            },
    {
        validate_name(name, version)?;
        validate_value(value, version)?;
        if self.collides(arena, name, wire.as_slice()) {
            return Err(RejectReason::FieldNameUnderscore);
        }
        let ghost a0 = content(*arena);
        let charge = self.budget.charge(name.len(), value.len());
        if let Err(e) = charge {
            proof {
                assert(self.state(a0) == old(self).state(a0).added(name@, wire@, value@, version));
            }
            return Err(e);
        }
        let name_at: usize = arena.len() - self.base;
        let known: KnownHeader = classify(name);
        proof {
            let more = name@ + value@;
            old(self).lemma_append(a0, more);
            assert(a0 + more =~= a0 + name@ + value@);
        }
        arena.extend_from_slice(name);
        arena.extend_from_slice(value);
        let slot = FieldSlot {
            known,
            name_at,
            name_len: name.len(),
            value_at: name_at + name.len(),
            value_len: value.len(),
        };
        self.slots.push(slot);
        self.wires.push(wire);
        proof {
            let a1 = content(*arena);
            let region = a1.skip(self.base as int);
            let before = old(self).state(a0);
            let f = Field { name: name@, value: value@ };
            assert(slot.field(region).name =~= name@);
            assert(slot.field(region).value =~= value@);
            assert(slots_fields(old(self).slots@, region) == before.fields);
            assert(slots_fields(self.slots@, region) =~= before.fields.push(f));
            assert(before.fields.push(f).drop_last() =~= before.fields);
            assert(self.wires_spec() =~= before.wires.push(wire@));
            assert forall|i: int| 0 <= i < self.slots@.len() implies (
            #[trigger] self.slots@[i]).within(region) && self.slots@[i].known
                == self.slots@[i].field(region).known() && field_ok(
                self.slots@[i].field(region),
            ) by {
                if i < old(self).slots@.len() {
                    assert(self.slots@[i] == old(self).slots@[i]);
                }
            }
        }
        Ok(())
    }

    /// Adds a field under a canonical name, by the strict rules of a
    /// multiplexed protocol. What is refused is not written.
    pub fn push(&mut self, arena: &mut BytesMut, name: &[u8], value: &[u8]) -> (r: Result<
        (),
        RejectReason,
    >)
        requires
            old(self).wf(content(*old(arena))),
            has_room(content(*old(arena)).len() as int, (name@.len() + value@.len()) as int),
        ensures
            final(self).wf(content(*final(arena))),
            final(self).base_spec() == old(self).base_spec(),
            final(self).state(content(*final(arena))) == old(self).state(
                content(*old(arena)),
            ).added(name@, name@, value@, WireVersion::H2),
            match r {
                Ok(()) => {
                    &&& old(self).state(content(*old(arena))).add_error(
                        name@,
                        name@,
                        value@,
                        WireVersion::H2,
                    ) is None
                    &&& content(*final(arena)) == content(*old(arena)) + name@ + value@
                },
                Err(e) => {
                    &&& old(self).state(content(*old(arena))).add_error(
                        name@,
                        name@,
                        value@,
                        WireVersion::H2,
                    ) == Some(e)
                    &&& content(*final(arena)) == content(*old(arena))
                },
            },
    {
        let wire = vstd::slice::slice_to_vec(name);
        self.add_field(arena, name, wire, value, WireVersion::H2)
    }

    /// Adds a field under the name it was sent under: lowercased, with
    /// `policy` applied to `_`. What is refused is not written.
    pub fn push_normalized(
        &mut self,
        arena: &mut BytesMut,
        name: &[u8],
        policy: UnderscorePolicy,
        value: &[u8],
        version: WireVersion,
    ) -> (r: Result<(), RejectReason>)
        requires
            old(self).wf(content(*old(arena))),
            has_room(content(*old(arena)).len() as int, (name@.len() + value@.len()) as int),
        ensures
            final(self).wf(content(*final(arena))),
            final(self).base_spec() == old(self).base_spec(),
            final(self).state(content(*final(arena))) == old(self).state(
                content(*old(arena)),
            ).added_raw(name@, policy, value@, version),
            match r {
                Ok(()) => {
                    &&& old(self).state(content(*old(arena))).add_raw_error(
                        name@,
                        policy,
                        value@,
                        version,
                    ) is None
                    &&& content(*final(arena)) == content(*old(arena)) + canonical_name(name@)
                        + value@
                },
                Err(e) => {
                    &&& old(self).state(content(*old(arena))).add_raw_error(
                        name@,
                        policy,
                        value@,
                        version,
                    ) == Some(e)
                    &&& content(*final(arena)) == content(*old(arena))
                },
            },
    {
        let mut canonical: Vec<u8> = Vec::new();
        let mut wire: Vec<u8> = Vec::new();
        let mut i: usize = 0;
        while i < name.len()
            invariant
                i <= name@.len(),
                canonical@.len() == i,
                wire@.len() == i,
                forall|j: int| 0 <= j < i ==> wire@[j] == lower_all(name@)[j],
            decreases name@.len() - i,
        {
            canonical.push(0);
            wire.push(to_lower(name[i]));
            i += 1;
        }
        assert(wire@ =~= lower_all(name@));
        let n: usize = normalize_name_into(name, policy, canonical.as_mut_slice())?;
        assert(canonical@ =~= canonical_name(name@));
        self.add_field(arena, canonical.as_slice(), wire, value, version)
    }

    /// Takes what was built from the end of `arena`.
    #[must_use]
    pub fn finish(self, arena: &mut BytesMut) -> (r: FieldSection)
        requires
            self.wf(content(*old(arena))),
        ensures
            r@ == self.state(content(*old(arena))).fields,
            content(*final(arena)) == content(*old(arena)).take(self.base_spec()),
    {
        let buf = arena.split_off(self.base).freeze();
        FieldSection { buf, slots: self.slots }
    }
}

} // verus!
