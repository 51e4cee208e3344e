use irontraffic_http::error::RejectReason;
use irontraffic_http::expect::{check_expect, ExpectAction, InterimBudget};
use irontraffic_http::field::UnderscorePolicy;
use irontraffic_http::limits::Limits;
use irontraffic_http::scalar::WireVersion;
use irontraffic_http::section::{FieldSection, FieldSectionBuilder};
use bytes::BytesMut;

fn section_with(fields: &[(&[u8], &[u8])]) -> FieldSection {
    let limits = Limits::default().clamped();
    let mut arena = BytesMut::new();
    let mut builder = FieldSectionBuilder::new(&arena, &limits);
    for (name, value) in fields {
        builder
            .push_normalized(
                &mut arena,
                name,
                UnderscorePolicy::Reject,
                value,
                WireVersion::Http11,
            )
            .expect("test fixture fields must be well formed under HTTP/1.1 rules");
    }
    builder.finish(&mut arena)
}

#[test]
fn absent_expect() {
    let section = section_with(&[]);
    assert_eq!(check_expect(&section, false), Ok(ExpectAction::Absent));
    assert_eq!(check_expect(&section, true), Ok(ExpectAction::Absent));
}

#[test]
fn exact_value_accepted() {
    for value in [&b"100-continue"[..], b"100-Continue", b"  100-continue  "] {
        let section = section_with(&[(b"expect", value)]);
        assert_eq!(
            check_expect(&section, false),
            Ok(ExpectAction::ForwardToUpstream),
            "{value:?}"
        );
        assert_eq!(
            check_expect(&section, true),
            Ok(ExpectAction::AnswerLocally),
            "{value:?}"
        );
    }
}

#[test]
fn obfuscated_expect_rejected() {
    let cases: [&[u8]; 8] = [
        b"100-continue, x",
        b"y 100-continue",
        b"100continue",
        b"100-continue;x",
        b"",
        b"100-continue\t100-continue",
        b"\x0b100-continue",
        b"100-continue\x0c",
    ];
    for case in cases {
        let section = section_with(&[(b"expect", case)]);
        assert_eq!(
            check_expect(&section, false),
            Err(RejectReason::ExpectUnsupported),
            "{case:?}"
        );
    }
}

#[test]
fn duplicate_expect_rejected() {
    let section = section_with(&[(b"expect", b"100-continue"), (b"expect", b"100-continue")]);
    assert_eq!(
        check_expect(&section, false),
        Err(RejectReason::ExpectUnsupported)
    );
}

#[test]
fn interim_budget_bounds() {
    fn six(b: &mut InterimBudget) {
        for _ in 0..6 {
            b.charge(1)
                .expect("wide_count's max_interim_responses (1000) covers six charges");
        }
    }

    let limits = Limits::default().clamped();
    let mut budget = InterimBudget::new(&limits);
    for i in 1..=5 {
        assert_eq!(budget.charge(100), Ok(()), "charge {i}");
    }
    assert_eq!(
        budget.charge(100),
        Err(RejectReason::InterimResponseCountExceeded)
    );

    let wide_count = Limits {
        max_interim_responses: 1000,
        ..Limits::default()
    }
    .clamped();
    let mut budget2 = InterimBudget::new(&wide_count);
    assert_eq!(budget2.charge(16_384), Ok(()));
    assert_eq!(budget2.bytes(), 16_384);
    assert_eq!(
        budget2.charge(1),
        Err(RejectReason::InterimResponseBytesExceeded)
    );

    let mut budget3 = InterimBudget::new(&wide_count);
    assert_eq!(
        budget3.charge(usize::MAX),
        Err(RejectReason::InterimResponseBytesExceeded)
    );
    assert_eq!(budget3.bytes(), u64::MAX);

    assert!(!InterimBudget::may_relay(WireVersion::Http10));
    assert!(InterimBudget::may_relay(WireVersion::Http11));
    assert!(InterimBudget::may_relay(WireVersion::H2));
    assert!(InterimBudget::may_relay(WireVersion::H3));

    let mut owner = InterimBudget::new(&wide_count);
    six(&mut owner);
    assert_eq!(owner.count(), 6);
}
