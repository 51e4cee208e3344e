use irontraffic_http::error::RejectReason;
use irontraffic_http::hlist::{CookieAccumulator, HeaderListBudget, TableSizePolicy, MAX_COOKIE_CRUMBS};
use irontraffic_http::limits::Limits;
use bytes::BytesMut;

#[test]
fn empty_budget_state() {
    let budget = HeaderListBudget::new(&Limits::default().clamped());
    assert_eq!(budget.used(), 0);
    assert_eq!(budget.count(), 0);
    assert_eq!(budget.remaining(), 65_536);
}

#[test]
fn entry_overhead_is_32() {
    let mut budget = HeaderListBudget::with_limits(1_000, 10);
    assert_eq!(budget.charge(1, 1), Ok(()));
    assert_eq!(budget.used(), 34);
}

#[test]
fn exact_limit_is_accepted() {
    let mut budget = HeaderListBudget::with_limits(100, 10);
    assert_eq!(budget.charge(34, 34), Ok(()));
    assert_eq!(budget.used(), 100);
    assert_eq!(budget.charge(0, 0), Err(RejectReason::HeaderListTooLarge));
}

#[test]
fn failed_charge_poisons_the_budget() {
    let mut budget = HeaderListBudget::with_limits(100, 10);
    assert_eq!(budget.charge(34, 34), Ok(()));
    assert_eq!(budget.charge(0, 0), Err(RejectReason::HeaderListTooLarge));
    assert!(budget.used() > 100);
    assert_eq!(budget.remaining(), 0);
    assert_eq!(budget.charge(0, 0), Err(RejectReason::HeaderListTooLarge));
}

#[test]
fn saturates_instead_of_wrapping() {
    let mut budget = HeaderListBudget::with_limits(65_536, 10);
    let result = budget.charge(usize::MAX, usize::MAX);
    assert_eq!(result, Err(RejectReason::HeaderListTooLarge));
    assert!(budget.used() > 65_536);
    assert_eq!(budget.used(), u64::MAX);
}

#[test]
fn count_limit_fires_before_byte_limit() {
    let mut budget = HeaderListBudget::with_limits(u32::MAX, 2);
    assert_eq!(budget.charge(1, 1), Ok(()));
    assert_eq!(budget.charge(1, 1), Ok(()));
    assert_eq!(budget.charge(1, 1), Err(RejectReason::FieldCountExceeded));
}

#[test]
fn count_check_runs_before_any_byte_accounting() {
    let mut budget = HeaderListBudget::with_limits(1, 0);
    let result = budget.charge(100, 100);
    assert_eq!(result, Err(RejectReason::FieldCountExceeded));
    assert_eq!(budget.used(), 0);
}

#[test]
fn cookie_crumbs_are_charged_individually() {
    let mut budget = HeaderListBudget::with_limits(65_536, u32::MAX);
    let mut accepted = 0_u32;
    for i in 0..4000_u32 {
        match budget.charge(6, 1) {
            Ok(()) => accepted += 1,
            Err(err) => {
                assert_eq!(err, RejectReason::HeaderListTooLarge);
                assert_eq!(
                    i, 1680,
                    "crumb 1681 (index 1680) is the one that crosses the limit"
                );
                break;
            }
        }
    }
    assert_eq!(accepted, 1680);
    let joined_len_of_accepted = accepted + 2 * (accepted - 1);
    assert_eq!(joined_len_of_accepted, 5038);
    assert!(joined_len_of_accepted < 65_536);

    let mut default_budget = HeaderListBudget::new(&Limits::default().clamped());
    for i in 0..4000_u32 {
        let result = default_budget.charge(6, 1);
        if i < 100 {
            assert_eq!(result, Ok(()), "crumb {i} should fit under max_field_count");
        } else {
            assert_eq!(result, Err(RejectReason::FieldCountExceeded));
            break;
        }
    }
}

#[test]
fn joined_len_matches_bytes_written() {
    let staging: Vec<u8> = (0_u32..100).map(|i| b'a' + (i % 26) as u8).collect();

    let cases: [&[(u32, u32)]; 4] = [
        &[],
        &[(0, 7)],
        &[(10, 0), (20, 1)],
        &[
            (0, 7),
            (10, 0),
            (20, 1),
            (30, 7),
            (40, 0),
            (50, 1),
            (60, 7),
            (70, 0),
        ],
    ];

    for crumbs in cases {
        let mut accumulator = CookieAccumulator::new();
        for &(offset, len) in crumbs {
            accumulator
                .push(offset, len)
                .expect("well under MAX_COOKIE_CRUMBS");
        }

        let mut expected = Vec::new();
        for (i, &(offset, len)) in crumbs.iter().enumerate() {
            if i > 0 {
                expected.extend_from_slice(b"; ");
            }
            let start = offset as usize;
            let end = start + len as usize;
            expected.extend_from_slice(&staging[start..end]);
        }

        let mut out = BytesMut::new();
        let written = accumulator
            .join_into(&staging, &mut out)
            .expect("every pair here is in range");
        assert_eq!(written, accumulator.joined_len());
        assert_eq!(written as usize, expected.len());
        assert_eq!(&out[..], &expected[..]);
    }
}

#[test]
fn join_into_rejects_out_of_range_pairs() {
    let mut accumulator = CookieAccumulator::new();
    accumulator.push(10, 5).expect("well under the ceiling");
    let staging = [0_u8; 4];
    let mut out = BytesMut::new();
    let result = accumulator.join_into(&staging, &mut out);
    assert_eq!(result, Err(RejectReason::HeaderListTooLarge));
    assert!(out.is_empty());
}

#[test]
fn join_into_validates_every_pair_before_writing_any_byte() {
    let staging = [b'x'; 4];
    let mut accumulator = CookieAccumulator::new();
    accumulator.push(0, 4).expect("fits staging exactly");
    accumulator.push(100, 5).expect("well under the ceiling");
    let mut out = BytesMut::new();
    let result = accumulator.join_into(&staging, &mut out);
    assert_eq!(result, Err(RejectReason::HeaderListTooLarge));
    assert!(
        out.is_empty(),
        "no byte may be written before every pair is validated"
    );
}

#[test]
fn accumulator_crumb_ceiling() {
    let mut accumulator = CookieAccumulator::new();
    for i in 0..MAX_COOKIE_CRUMBS {
        assert_eq!(accumulator.push(0, 1), Ok(()), "crumb {i} should fit");
    }
    assert_eq!(
        accumulator.push(0, 1),
        Err(RejectReason::FieldCountExceeded)
    );
}

#[test]
fn table_size_update_policy() {
    let policy = TableSizePolicy::default();
    assert_eq!(policy.check_update(0), Ok(()));
    assert_eq!(policy.check_update(4096), Ok(()));
    assert_eq!(
        policy.check_update(4097),
        Err(RejectReason::HeaderListTooLarge)
    );
    assert_eq!(
        policy.check_update(u32::MAX),
        Err(RejectReason::HeaderListTooLarge)
    );
}

#[test]
fn remaining_saturates_after_failure() {
    let mut budget = HeaderListBudget::with_limits(64, 10);
    assert_eq!(budget.charge(64, 64), Err(RejectReason::HeaderListTooLarge));
    assert_eq!(budget.remaining(), 0);
}

#[test]
fn budget_is_not_copy() {
    fn assert_not_copy<T: Clone>() {}

    fn charge_twice(budget: &mut HeaderListBudget) {
        budget.charge(1, 1).expect("fits under the default limit");
        budget.charge(1, 1).expect("fits under the default limit");
    }

    assert_not_copy::<HeaderListBudget>();
    let mut budget = HeaderListBudget::new(&Limits::default().clamped());
    charge_twice(&mut budget);
    assert_eq!(budget.count(), 2);
}

#[test]
fn byte_ceiling_is_exact_to_one_byte() {
    let mut at = HeaderListBudget::with_limits(33, 10);
    assert_eq!(at.charge(0, 1), Ok(()));
    assert_eq!(at.used(), 33);
    assert_eq!(at.remaining(), 0);

    let mut over = HeaderListBudget::with_limits(32, 10);
    assert_eq!(over.charge(0, 1), Err(RejectReason::HeaderListTooLarge));
}

#[test]
fn saturated_budget_stays_failed_forever() {
    let mut budget = HeaderListBudget::with_limits(65_536, u32::MAX);
    assert_eq!(
        budget.charge(usize::MAX, usize::MAX),
        Err(RejectReason::HeaderListTooLarge)
    );
    let saturated = budget.used();
    for _ in 0..4 {
        assert_eq!(budget.charge(0, 0), Err(RejectReason::HeaderListTooLarge));
        assert!(budget.used() >= saturated);
        assert_eq!(budget.remaining(), 0);
    }
}

#[test]
fn empty_field_still_costs_the_32_byte_overhead() {
    let mut budget = HeaderListBudget::with_limits(100, 10);
    assert_eq!(budget.charge(0, 0), Ok(()));
    assert_eq!(budget.used(), 32);
    assert_eq!(budget.count(), 1);
    assert_eq!(budget.remaining(), 68);
}

#[test]
fn remaining_is_byte_headroom_not_a_health_flag() {
    let mut budget = HeaderListBudget::with_limits(65_536, 1);
    assert_eq!(budget.charge(10, 10), Ok(()));
    assert_eq!(budget.charge(10, 10), Err(RejectReason::FieldCountExceeded));
    assert_eq!(budget.used(), 52);
    assert_eq!(budget.count(), 2);
    assert_eq!(budget.remaining(), 65_484);
}

#[test]
fn crumb_ceiling_is_256_exactly() {
    assert_eq!(MAX_COOKIE_CRUMBS, 256);
    let mut accumulator = CookieAccumulator::new();
    for i in 0..256_u32 {
        assert_eq!(accumulator.push(0, 1), Ok(()), "crumb {i} must fit");
    }
    assert_eq!(accumulator.len(), 256);
    assert_eq!(
        accumulator.push(0, 1),
        Err(RejectReason::FieldCountExceeded)
    );
}

#[test]
fn accessors_report_the_recorded_crumbs() {
    let mut accumulator = CookieAccumulator::new();
    assert!(accumulator.is_empty());
    assert_eq!(accumulator.len(), 0);
    assert!(accumulator.crumbs().is_empty());

    accumulator.push(3, 7).expect("first crumb");
    assert!(!accumulator.is_empty());
    assert_eq!(accumulator.len(), 1);
    assert_eq!(accumulator.crumbs(), &[(3, 7)]);

    accumulator.push(11, 0).expect("second crumb");
    assert_eq!(accumulator.len(), 2);
    assert_eq!(accumulator.crumbs(), &[(3, 7), (11, 0)]);
}

#[test]
fn join_into_appends_and_never_clears_the_caller_buffer() {
    let staging = b"abcdefgh";
    let mut accumulator = CookieAccumulator::new();
    accumulator.push(0, 3).expect("first crumb");
    accumulator.push(4, 2).expect("second crumb");

    let mut out = BytesMut::from(&b"PRIOR"[..]);
    let written = accumulator.join_into(staging, &mut out).expect("in range");
    assert_eq!(&out[..], &b"PRIORabc; ef"[..]);
    assert_eq!(written as usize, out.len().saturating_sub(5));
}

#[test]
fn two_empty_crumbs_join_to_just_the_separator() {
    let staging = [b'z'; 4];
    let mut accumulator = CookieAccumulator::new();
    accumulator.push(0, 0).expect("first crumb");
    accumulator.push(4, 0).expect("second crumb");
    assert_eq!(accumulator.joined_len(), 2);
    let mut out = BytesMut::new();
    assert_eq!(accumulator.join_into(&staging, &mut out), Ok(2));
    assert_eq!(&out[..], b"; ");
}

#[test]
fn join_into_is_repeatable() {
    let staging = b"abcdefgh";
    let mut accumulator = CookieAccumulator::new();
    accumulator.push(0, 3).expect("first crumb");
    accumulator.push(4, 2).expect("second crumb");

    let mut first = BytesMut::new();
    let a = accumulator
        .join_into(staging, &mut first)
        .expect("in range");
    let mut second = BytesMut::new();
    let b = accumulator
        .join_into(staging, &mut second)
        .expect("in range");
    assert_eq!(a, b);
    assert_eq!(first, second);
    assert_eq!(accumulator.len(), 2);
}

#[test]
fn check_update_uses_this_policys_max_not_the_default() {
    let strict = TableSizePolicy { advertised_max: 0 };
    assert_eq!(strict.check_update(0), Ok(()));
    assert_eq!(
        strict.check_update(1),
        Err(RejectReason::HeaderListTooLarge)
    );

    let generous = TableSizePolicy {
        advertised_max: 8192,
    };
    assert_eq!(generous.check_update(4097), Ok(()));
    assert_eq!(generous.check_update(8192), Ok(()));
    assert_eq!(
        generous.check_update(8193),
        Err(RejectReason::HeaderListTooLarge)
    );
}

#[test]
fn budget_is_not_copy_at_compile_time() {
    struct Probe<T>(core::marker::PhantomData<T>);
    trait NotCopy {
        const IS_COPY: bool = false;
    }
    impl<T> NotCopy for Probe<T> {}
    impl<T: Copy> Probe<T> {
        const IS_COPY: bool = true;
    }
    const BUDGET_IS_COPY: bool = <Probe<HeaderListBudget>>::IS_COPY;
    const POLICY_IS_COPY: bool = <Probe<TableSizePolicy>>::IS_COPY;
    assert!(!BUDGET_IS_COPY);
    assert!(POLICY_IS_COPY);
}

/// A small deterministic generator, so that every run sees the same inputs.
struct Inputs(u64);

impl Inputs {
    fn next(&mut self) -> u64 {
        self.0 ^= self.0 << 13;
        self.0 ^= self.0 >> 7;
        self.0 ^= self.0 << 17;
        self.0
    }

    fn below(&mut self, n: usize) -> usize {
        (self.next() % (n as u64)) as usize
    }

    #[allow(dead_code)]
    fn bytes(&mut self, max_len: usize, alphabet: &[u8]) -> Vec<u8> {
        let len = self.below(max_len + 1);
        (0..len)
            .map(|_| {
                if alphabet.is_empty() {
                    self.next() as u8
                } else {
                    alphabet[self.below(alphabet.len())]
                }
            })
            .collect()
    }
}

#[test]
fn prop_budget_never_exceeds_limit() {
    let mut inputs = Inputs(0xfeed_f00d_dead_beef);
    for _ in 0..500 {
        let mut budget = HeaderListBudget::with_limits(4096, 200);
        let mut already_failed = false;
        let pairs = inputs.below(201);
        for _ in 0..pairs {
            let result = budget.charge(inputs.below(1025), inputs.below(1025));
            if already_failed {
                assert!(result.is_err());
            } else {
                match result {
                    Ok(()) => assert!(budget.used() <= 4096),
                    Err(_) => already_failed = true,
                }
            }
        }
    }
}
