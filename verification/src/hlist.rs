//! Budgets for header lists that arrive compressed.
//!
//! A few compressed bytes can expand into many. A limit checked after the
//! decode bounds nothing, so [`HeaderListBudget`] charges the uncompressed
//! size of every header as the decoder emits it. [`CookieAccumulator`] joins
//! `cookie` crumbs, which were charged when they were emitted, and charges
//! nothing itself. [`TableSizePolicy`] holds a dynamic table size update to
//! the size that was advertised.
use crate::error::RejectReason;
use crate::ext::{content, has_room, pairs, PairList};
use crate::limits::ClampedLimits;
use crate::text::{ascii, lemma_ascii};
use bytes::BytesMut;
use vstd::prelude::*;
use vstd::slice::slice_subrange;

verus! {

/// The smaller of a sum and the greatest `u64`.
pub open spec fn sat64(n: int) -> u64 {
    if n <= u64::MAX {
        n as u64
    } else {
        u64::MAX
    }
}

/// The smaller of a sum and the greatest `u32`.
pub open spec fn sat32(n: int) -> u32 {
    if n <= u32::MAX {
        n as u32
    } else {
        u32::MAX
    }
}

/// The state of a [`HeaderListBudget`].
pub struct BudgetView {
    /// Bytes charged so far.
    pub used: u64,
    /// Bytes that may be charged.
    pub limit: u64,
    /// Headers charged so far.
    pub count: u32,
    /// Headers that may be charged.
    pub max_count: u32,
}

impl BudgetView {
    /// A budget that nothing was charged to.
    pub open spec fn fresh(max_bytes: u32, max_count: u32) -> BudgetView {
        BudgetView { used: 0, limit: max_bytes as u64, count: 0, max_count }
    }

    /// What charging one header of these lengths answers.
    pub open spec fn charge_result(self, name_len: int, value_len: int) -> Result<
        (),
        RejectReason,
    > {
        if sat32(self.count + 1) > self.max_count {
            Err(RejectReason::FieldCountExceeded)
        } else if self.used + name_len + value_len + 32 > self.limit {
            Err(RejectReason::HeaderListTooLarge)
        } else {
            Ok(())
        }
    }

    /// The budget after charging one header of these lengths. A header over
    /// the count limit costs no bytes.
    pub open spec fn charged(self, name_len: int, value_len: int) -> BudgetView {
        let count = sat32(self.count + 1);
        BudgetView {
            used: if count > self.max_count {
                self.used
            } else {
                sat64(self.used + name_len + value_len + 32)
            },
            count,
            ..self
        }
    }

    /// Whether a limit was passed.
    pub open spec fn failed(self) -> bool {
        self.count > self.max_count || self.used > self.limit
    }
}

/// Charges the uncompressed size of a header list as it is decoded.
///
/// One instance per header block; a trailer section is a second block. Not
/// `Copy`: charging a copy would leave the budget itself untouched.
#[derive(Debug)]
pub struct HeaderListBudget {
    used: u64,
    limit: u64,
    count: u32,
    max_count: u32,
}

impl View for HeaderListBudget {
    type V = BudgetView;

    closed spec fn view(&self) -> BudgetView {
        BudgetView {
            used: self.used,
            limit: self.limit,
            count: self.count,
            max_count: self.max_count,
        }
    }
}

impl Clone for HeaderListBudget {
    fn clone(&self) -> (r: Self)
        ensures
            r@ == self@,
            r.wf() == self.wf(),
    {
        HeaderListBudget {
            used: self.used,
            limit: self.limit,
            count: self.count,
            max_count: self.max_count,
        }
    }
}

impl HeaderListBudget {
    /// Whether the byte limit is one that a budget can be made with.
    pub closed spec fn wf(&self) -> bool {
        self.limit <= u32::MAX
    }

    /// Starts a budget for one header block.
    #[must_use]
    pub fn new(limits: &ClampedLimits) -> (r: Self)
        ensures
            r@ == BudgetView::fresh(limits@.max_header_list_bytes, limits@.max_field_count),
            r.wf(),
    {
        let l = limits.get();
        Self::with_limits(l.max_header_list_bytes, l.max_field_count)
    }

    /// Starts a budget with explicit limits.
    #[must_use]
    pub fn with_limits(max_header_list_bytes: u32, max_field_count: u32) -> (r: Self)
        ensures
            r@ == BudgetView::fresh(max_header_list_bytes, max_field_count),
            r.wf(),
    {
        Self {
            used: 0,
            limit: max_header_list_bytes as u64,
            count: 0,
            max_count: max_field_count,
        }
    }

    /// Charges one decoded header: once per header, before it is stored.
    ///
    /// The count is charged first. After an error the budget stays failed.
    pub fn charge(&mut self, name_len: usize, value_len: usize) -> (r: Result<(), RejectReason>)
        requires
            old(self).wf(),
        ensures
            final(self).wf(),
            final(self)@ == old(self)@.charged(name_len as int, value_len as int),
            r == old(self)@.charge_result(name_len as int, value_len as int),
    {
        self.count = self.count.saturating_add(1);
        if self.count > self.max_count {
            return Err(RejectReason::FieldCountExceeded);
        }
        let entry: u64 = (name_len as u64).saturating_add(value_len as u64).saturating_add(32);
        self.used = self.used.saturating_add(entry);
        if self.used > self.limit {
            return Err(RejectReason::HeaderListTooLarge);
        }
        Ok(())
    }

    /// Bytes charged so far.
    #[must_use]
    pub fn used(&self) -> (r: u64)
        ensures
            r == self@.used,
    {
        self.used
    }

    /// Headers charged so far.
    #[must_use]
    pub fn count(&self) -> (r: u32)
        ensures
            r == self@.count,
    {
        self.count
    }

    /// Bytes still available. A charge that failed on the count leaves this
    /// as it was, so it does not say whether the budget has failed.
    #[must_use]
    pub fn remaining(&self) -> (r: u64)
        ensures
            r == if self@.used <= self@.limit {
                (self@.limit - self@.used) as u64
            } else {
                0u64
            },
    {
        self.limit.saturating_sub(self.used)
    }
}

/// A charge succeeds exactly if it leaves the budget within both limits.
pub proof fn law_charge_ok_iff_within(b: BudgetView, name_len: int, value_len: int)
    requires
        0 <= name_len,
        0 <= value_len,
        !b.failed(),
        b.limit < u64::MAX,
        b.max_count < u32::MAX,
    ensures
        b.charge_result(name_len, value_len) is Ok <==> !b.charged(name_len, value_len).failed(),
{
}

/// Once a charge has failed, every later charge fails.
pub proof fn law_failed_budget_stays_failed(b: BudgetView, n1: int, v1: int, n2: int, v2: int)
    requires
        0 <= n1,
        0 <= v1,
        0 <= n2,
        0 <= v2,
        b.limit <= u32::MAX,
        b.charge_result(n1, v1) is Err,
    ensures
        b.charged(n1, v1).charge_result(n2, v2) is Err,
{
}

/// The most crumbs an accumulator records, whatever any budget says.
pub const MAX_COOKIE_CRUMBS: usize = 256;

/// The sum of the lengths of the crumbs.
pub open spec fn crumbs_len(crumbs: Seq<(u32, u32)>) -> int
    decreases crumbs.len(),
{
    if crumbs.len() == 0 {
        0
    } else {
        crumbs_len(crumbs.drop_last()) + crumbs.last().1
    }
}

/// The number of bytes that the joined crumbs take.
pub open spec fn join_len(crumbs: Seq<(u32, u32)>) -> int {
    if crumbs.len() == 0 {
        0
    } else {
        crumbs_len(crumbs) + 2 * (crumbs.len() - 1)
    }
}

/// Whether a crumb lies within `staging`.
pub open spec fn crumb_in(staging: Seq<u8>, c: (u32, u32)) -> bool {
    c.0 + c.1 <= staging.len()
}

/// Whether every crumb lies within `staging`.
pub open spec fn crumbs_in(staging: Seq<u8>, crumbs: Seq<(u32, u32)>) -> bool {
    forall|i: int| 0 <= i < crumbs.len() ==> crumb_in(staging, #[trigger] crumbs[i])
}

/// The bytes of one crumb.
pub open spec fn crumb_bytes(staging: Seq<u8>, c: (u32, u32)) -> Seq<u8> {
    staging.subrange(c.0 as int, c.0 + c.1)
}

/// The crumbs, joined with `"; "`.
pub open spec fn joined(staging: Seq<u8>, crumbs: Seq<(u32, u32)>) -> Seq<u8>
    decreases crumbs.len(),
{
    if crumbs.len() == 0 {
        Seq::empty()
    } else if crumbs.len() == 1 {
        crumb_bytes(staging, crumbs[0])
    } else {
        joined(staging, crumbs.drop_last()) + ascii("; "@) + crumb_bytes(staging, crumbs.last())
    }
}

proof fn lemma_separator()
    ensures
        ascii("; "@) == seq![';' as u8, ' ' as u8],
{
    reveal_strlit("; ");
    lemma_ascii("; "@);
    assert(ascii("; "@) =~= seq![';' as u8, ' ' as u8]);
}

proof fn lemma_crumbs_len_nonneg(crumbs: Seq<(u32, u32)>)
    ensures
        crumbs_len(crumbs) >= 0,
    decreases crumbs.len(),
{
    if crumbs.len() > 0 {
        lemma_crumbs_len_nonneg(crumbs.drop_last());
    }
}

proof fn lemma_crumbs_len_take(crumbs: Seq<(u32, u32)>, i: int)
    requires
        0 <= i <= crumbs.len(),
    ensures
        0 <= crumbs_len(crumbs.take(i)) <= crumbs_len(crumbs),
    decreases crumbs.len() - i,
{
    lemma_crumbs_len_nonneg(crumbs.take(i));
    if i < crumbs.len() {
        lemma_crumbs_len_take(crumbs, i + 1);
        assert(crumbs.take(i + 1).drop_last() =~= crumbs.take(i));
    } else {
        assert(crumbs.take(i) =~= crumbs);
    }
}

/// What is joined has the length that was predicted: the crumbs' own lengths
/// and two bytes between each two.
pub proof fn law_joined_len(staging: Seq<u8>, crumbs: Seq<(u32, u32)>)
    requires
        crumbs_in(staging, crumbs),
    ensures
        joined(staging, crumbs).len() == join_len(crumbs),
    decreases crumbs.len(),
{
    lemma_separator();
    if crumbs.len() == 1 {
        assert(crumb_in(staging, crumbs[0]));
        assert(crumbs_len(crumbs.drop_last()) == 0);
    } else if crumbs.len() > 1 {
        assert forall|i: int| 0 <= i < crumbs.drop_last().len() implies crumb_in(
            staging,
            #[trigger] crumbs.drop_last()[i],
        ) by {
            assert(crumb_in(staging, crumbs[i]));
        }
        law_joined_len(staging, crumbs.drop_last());
        assert(crumb_in(staging, crumbs[crumbs.len() - 1]));
    }
}

/// The part of `staging` that a crumb names, if it lies within it.
fn crumb_slice(staging: &[u8], offset: u32, len: u32) -> (r: Option<&[u8]>)
    ensures
        match r {
            Some(s) => crumb_in(staging@, (offset, len)) && s@ == crumb_bytes(
                staging@,
                (offset, len),
            ),
            None => !crumb_in(staging@, (offset, len)),
        },
{
    let start: usize = offset as usize;
    assert(staging@.len() == staging.len());
    let end: usize = match start.checked_add(len as usize) {
        Some(end) => end,
        None => {
            return None;
        },
    };
    if end <= staging.len() {
        Some(slice_subrange(staging, start, end))
    } else {
        None
    }
}

/// Joins `cookie` crumbs with `"; "`.
///
/// It records `(offset, length)` pairs into the caller's staging buffer and
/// owns no bytes. It charges nothing: every crumb was charged on emission.
#[derive(Debug)]
pub struct CookieAccumulator {
    crumbs: PairList,
    total_len: u32,
}

impl View for CookieAccumulator {
    type V = Seq<(u32, u32)>;

    closed spec fn view(&self) -> Seq<(u32, u32)> {
        pairs(self.crumbs)
    }
}

impl Default for CookieAccumulator {
    fn default() -> (r: Self)
        ensures
            r.wf(),
            r@ == Seq::<(u32, u32)>::empty(),
    {
        CookieAccumulator { crumbs: PairList::new(), total_len: 0 }
    }
}

impl CookieAccumulator {
    /// The running total is the sum of the lengths, and there are no more
    /// crumbs than allowed.
    pub closed spec fn wf(&self) -> bool {
        &&& self@.len() <= MAX_COOKIE_CRUMBS
        &&& self.total_len == sat32(crumbs_len(self@))
    }

    /// A new, empty accumulator.
    #[must_use]
    pub fn new() -> (r: Self)
        ensures
            r.wf(),
            r@ == Seq::<(u32, u32)>::empty(),
    {
        Self::default()
    }

    /// Records one crumb. A crumb past [`MAX_COOKIE_CRUMBS`] is refused.
    pub fn push(&mut self, offset: u32, len: u32) -> (r: Result<(), RejectReason>)
        requires
            old(self).wf(),
        ensures
            final(self).wf(),
            match r {
                Ok(()) => old(self)@.len() < MAX_COOKIE_CRUMBS && final(self)@ == old(self)@.push(
                    (offset, len),
                ),
                Err(e) => old(self)@.len() == MAX_COOKIE_CRUMBS && e
                    == RejectReason::FieldCountExceeded && final(self)@ == old(self)@,
            },
    {
        if self.crumbs.as_slice().len() >= MAX_COOKIE_CRUMBS {
            return Err(RejectReason::FieldCountExceeded);
        }
        self.crumbs.push((offset, len));
        self.total_len = self.total_len.saturating_add(len);
        proof {
            lemma_crumbs_len_nonneg(old(self)@);
            assert(self@.drop_last() =~= old(self)@);
        }
        Ok(())
    }

    /// The number of crumbs recorded.
    #[must_use]
    pub fn len(&self) -> (r: usize)
        ensures
            r == self@.len(),
    {
        self.crumbs.as_slice().len()
    }

    /// The recorded `(offset, length)` pairs, in the order they were pushed.
    #[must_use]
    pub fn crumbs(&self) -> (r: &[(u32, u32)])
        ensures
            r@ == self@,
    {
        self.crumbs.as_slice()
    }

    /// Whether no crumb was recorded.
    #[must_use]
    pub fn is_empty(&self) -> (r: bool)
        ensures
            r == (self@.len() == 0),
    {
        self.crumbs.as_slice().len() == 0
    }

    /// The number of bytes that [`CookieAccumulator::join_into`] writes,
    /// saturated.
    #[must_use]
    pub fn joined_len(&self) -> (r: u32)
        requires
            self.wf(),
        ensures
            r == sat32(join_len(self@)),
    {
        proof {
            lemma_crumbs_len_nonneg(self@);
        }
        let n: u32 = self.crumbs.as_slice().len() as u32;
        let separators: u32 = if n == 0 {
            0
        } else {
            2 * (n - 1)
        };
        self.total_len.saturating_add(separators)
    }

    /// Appends the crumbs, joined with `"; "`, to `out`, reading them from
    /// `staging`, and returns the number of bytes written.
    ///
    /// A crumb outside `staging` is refused before anything is written. A
    /// join too long for the result is written and then refused.
    pub fn join_into(&self, staging: &[u8], out: &mut BytesMut) -> (r: Result<u32, RejectReason>)
        requires
            self.wf(),
            crumbs_in(staging@, self@) ==> has_room(
                content(*old(out)).len() as int,
                join_len(self@),
            ),
        ensures
            content(*final(out)) == if crumbs_in(staging@, self@) {
                content(*old(out)) + joined(staging@, self@)
            } else {
                content(*old(out))
            },
            match r {
                Ok(n) => crumbs_in(staging@, self@) && n == join_len(self@),
                Err(e) => e == RejectReason::HeaderListTooLarge && (!crumbs_in(staging@, self@)
                    || join_len(self@) > u32::MAX),
            },
    {
        let crumbs = self.crumbs.as_slice();
        let mut k: usize = 0;
        while k < crumbs.len()
            invariant
                k <= crumbs@.len(),
                crumbs@ == self@,
                content(*out) == content(*old(out)),
                forall|j: int| 0 <= j < k ==> crumb_in(staging@, #[trigger] crumbs@[j]),
            decreases crumbs@.len() - k,
        {
            let (offset, len) = crumbs[k];
            if crumb_slice(staging, offset, len).is_none() {
                return Err(RejectReason::HeaderListTooLarge);
            }
            k += 1;
        }
        let before: usize = out.len();
        let ghost start = content(*out);
        let mut i: usize = 0;
        proof {
            assert(start + joined(staging@, crumbs@.take(0)) =~= start);
        }
        while i < crumbs.len()
            invariant
                i <= crumbs@.len() <= MAX_COOKIE_CRUMBS,
                crumbs@ == self@,
                crumbs_in(staging@, self@),
                before == start.len(),
                start == content(*old(out)),
                has_room(start.len() as int, join_len(self@)),
                content(*out) == start + joined(staging@, crumbs@.take(i as int)),
            decreases crumbs@.len() - i,
        {
            let ghost done = crumbs@.take(i as int);
            let ghost next = crumbs@.take(i + 1);
            let (offset, len) = crumbs[i];
            proof {
                assert(next.drop_last() =~= done);
                lemma_crumbs_len_take(crumbs@, i + 1);
                law_joined_len(staging@, done);
                law_joined_len(staging@, next);
                lemma_separator();
            }
            if i > 0 {
                out.extend_from_slice("; ".as_bytes());
            }
            match crumb_slice(staging, offset, len) {
                Some(s) => {
                    out.extend_from_slice(s);
                },
                None => {
                    proof {
                        assert(crumb_in(staging@, crumbs@[i as int]));
                    }
                },
            }
            proof {
                assert(content(*out) =~= start + joined(staging@, next));
            }
            i += 1;
        }
        proof {
            assert(crumbs@.take(i as int) =~= crumbs@);
            law_joined_len(staging@, crumbs@);
        }
        let written: usize = out.len() - before;
        match u32::try_from(written) {
            Ok(n) => Ok(n),
            Err(_) => Err(RejectReason::HeaderListTooLarge),
        }
    }
}

/// The dynamic table size that is advertised and enforced.
#[derive(Copy, Clone, Debug, PartialEq, Eq, Structural)]
pub struct TableSizePolicy {
    /// The value advertised to the peer.
    pub advertised_max: u32,
}

impl Default for TableSizePolicy {
    fn default() -> (r: Self)
        ensures
            r.advertised_max == 4096,
    {
        TableSizePolicy { advertised_max: 4096 }
    }
}

impl TableSizePolicy {
    /// Validates a dynamic table size update received from the peer: one
    /// larger than what was advertised is refused.
    pub fn check_update(&self, requested: u32) -> (r: Result<(), RejectReason>)
        ensures
            match r {
                Ok(()) => requested <= self.advertised_max,
                Err(e) => requested > self.advertised_max && e == RejectReason::HeaderListTooLarge,
            },
    {
        if requested > self.advertised_max {
            Err(RejectReason::HeaderListTooLarge)
        } else {
            Ok(())
        }
    }
}

} // verus!
