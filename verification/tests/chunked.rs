use irontraffic_http::error::RejectReason;
use irontraffic_http::error::RejectReason::{BareCr, ChunkExtInvalid, ChunkExtTooLong, ChunkSizeInvalid, ChunkSizeOverflow, ChunkTerminatorInvalid, FieldCountExceeded, FieldNameEmpty, FieldNameUnderscore, HeaderListTooLarge, ObsFold, TrailerFieldForbidden, WhitespaceBeforeColon};
use irontraffic_http::field::UnderscorePolicy;
use irontraffic_http::h1::chunked::{ChunkedDecoder, ChunkedEvent, TRAILER_SEARCH_CAP_SLACK};
use irontraffic_http::h1::parser::HeadScanBudget;
use irontraffic_http::known::KnownHeader;
use irontraffic_http::limits::Limits;
use irontraffic_http::section::FieldSection;
use bytes::BytesMut;

#[derive(Debug, Clone, PartialEq, Eq)]
enum Outcome {
    NeedMore,
    Done { consumed: usize },
    Refused(RejectReason),
}

fn new_decoder() -> ChunkedDecoder {
    ChunkedDecoder::new(&Limits::default().clamped(), UnderscorePolicy::Reject)
}

fn drive(decoder: &mut ChunkedDecoder, input: &[u8]) -> (Vec<u8>, Outcome) {
    let mut pos = 0usize;
    let mut data = Vec::new();
    let mut arena = BytesMut::new();
    loop {
        let buf = input.get(pos..).unwrap_or(&[]);
        match decoder.decode(buf, &mut arena) {
            Ok(ChunkedEvent::Data { offset, len }) => {
                let slice = buf.get(offset..offset.saturating_add(len)).unwrap_or(&[]);
                data.extend_from_slice(slice);
                pos = pos.saturating_add(decoder.consumed_this_call());
            }
            Ok(ChunkedEvent::NeedMore) => {
                let consumed = decoder.consumed_this_call();
                if consumed == 0 {
                    return (data, Outcome::NeedMore);
                }
                pos = pos.saturating_add(consumed);
            }
            Ok(ChunkedEvent::Done { consumed }) => {
                return (
                    data,
                    Outcome::Done {
                        consumed: pos.saturating_add(consumed),
                    },
                );
            }
            Err(reason) => return (data, Outcome::Refused(reason)),
        }
    }
}

fn drive_split(decoder: &mut ChunkedDecoder, input: &[u8], split: usize) -> (Vec<u8>, Outcome) {
    let mut pos = 0usize;
    let mut revealed = 0usize;
    let mut data = Vec::new();
    let mut arena = BytesMut::new();
    loop {
        if revealed < input.len() {
            revealed = revealed.saturating_add(split).min(input.len());
        }
        let buf = input.get(pos..revealed).unwrap_or(&[]);
        match decoder.decode(buf, &mut arena) {
            Ok(ChunkedEvent::Data { offset, len }) => {
                let slice = buf.get(offset..offset.saturating_add(len)).unwrap_or(&[]);
                data.extend_from_slice(slice);
                pos = pos.saturating_add(decoder.consumed_this_call());
            }
            Ok(ChunkedEvent::NeedMore) => {
                let consumed = decoder.consumed_this_call();
                pos = pos.saturating_add(consumed);
                if consumed == 0 && revealed >= input.len() {
                    return (data, Outcome::NeedMore);
                }
            }
            Ok(ChunkedEvent::Done { consumed }) => {
                return (
                    data,
                    Outcome::Done {
                        consumed: pos.saturating_add(consumed),
                    },
                );
            }
            Err(reason) => return (data, Outcome::Refused(reason)),
        }
    }
}

#[test]
fn chunked_corpus_table() {
    let cases: &[(&[u8], Outcome)] = &[
        (b"1\r\nA\r\n0\r\n\r\n", Outcome::Done { consumed: 11 }),
        (b"0\r\n\r\n", Outcome::Done { consumed: 5 }),
        (b"", Outcome::NeedMore),
        (b"1", Outcome::NeedMore),
        (b"1\r\n", Outcome::NeedMore),
        (
            b"1;ext=value\r\nA\r\n0\r\n\r\n",
            Outcome::Done { consumed: 21 },
        ),
        (
            b"1;ext=\"quoted;with;semis\"\r\nA\r\n0\r\n\r\n",
            Outcome::Done { consumed: 35 },
        ),
        (
            b"1;ext=\"unterminated\r\nA\r\n0\r\n\r\n",
            Outcome::Refused(ChunkExtInvalid),
        ),
        (b"1;\r\nA\r\n0\r\n\r\n", Outcome::Refused(ChunkExtInvalid)),
        (b"1;;a=b\r\nA\r\n0\r\n\r\n", Outcome::Refused(ChunkExtInvalid)),
        (b"+1\r\nA\r\n0\r\n\r\n", Outcome::Refused(ChunkSizeInvalid)),
        (b" 1\r\nA\r\n0\r\n\r\n", Outcome::Refused(ChunkSizeInvalid)),
        (b"1 \r\nA\r\n0\r\n\r\n", Outcome::Refused(ChunkSizeInvalid)),
        (b"0x1\r\nA\r\n0\r\n\r\n", Outcome::Refused(ChunkSizeInvalid)),
        (b"\r\n", Outcome::Refused(ChunkSizeInvalid)),
        (b"FFFFFFFFFFFFFFFFF\r\n", Outcome::Refused(ChunkSizeOverflow)),
        (b"1\rA\r\n0\r\n\r\n", Outcome::Refused(ChunkTerminatorInvalid)),
        (b"1\nA\r\n0\r\n\r\n", Outcome::Refused(ChunkTerminatorInvalid)),
        (b"1\r\nA\n0\r\n\r\n", Outcome::Refused(ChunkTerminatorInvalid)),
        (b"1\r\nA\rX0\r\n\r\n", Outcome::Refused(ChunkTerminatorInvalid)),
        (
            b"1\r\nAB\r\n0\r\n\r\n",
            Outcome::Refused(ChunkTerminatorInvalid),
        ),
        (
            b"0\r\nContent-Length: 10\r\n\r\n",
            Outcome::Refused(TrailerFieldForbidden),
        ),
        (
            b"0\r\nHost: evil\r\n\r\n",
            Outcome::Refused(TrailerFieldForbidden),
        ),
        (
            b"0\r\nAuthorization: Bearer x\r\n\r\n",
            Outcome::Refused(TrailerFieldForbidden),
        ),
        (
            b"0\r\nCookie: a=b\r\n\r\n",
            Outcome::Refused(TrailerFieldForbidden),
        ),
        (
            b"0\r\nTrailer: x\r\n\r\n",
            Outcome::Refused(TrailerFieldForbidden),
        ),
        (
            b"0\r\nTransfer-Encoding: chunked\r\n\r\n",
            Outcome::Refused(TrailerFieldForbidden),
        ),
        (
            b"0\r\nX-Checksum: abc\r\n\r\n",
            Outcome::Done { consumed: 22 },
        ),
        (
            b"0\r\nX-Checksum:   abc  \r\n\r\n",
            Outcome::Done { consumed: 26 },
        ),
        (
            b"0\r\nx_checksum: abc\r\n\r\n",
            Outcome::Refused(FieldNameUnderscore),
        ),
        (b"0\r\n: v\r\n\r\n", Outcome::Refused(FieldNameEmpty)),
        (b"0\r\nX : v\r\n\r\n", Outcome::Refused(WhitespaceBeforeColon)),
        (b"0\r\n X: v\r\n\r\n", Outcome::Refused(ObsFold)),
        (b"0\r\nX: v\r\r\n\r\n", Outcome::Refused(BareCr)),
        (b"0\r\n\r\nGARBAGE", Outcome::Done { consumed: 5 }),
    ];

    for (input, expected) in cases {
        let mut decoder = new_decoder();
        let (data, outcome) = drive(&mut decoder, input);
        assert_eq!(&outcome, expected, "{input:?}: data so far {data:?}");
    }

    let mut basic_decoder = new_decoder();
    let (basic_body, basic_outcome) = drive(&mut basic_decoder, b"1\r\nA\r\n0\r\n\r\n");
    assert_eq!(basic_body, b"A");
    assert_eq!(basic_outcome, Outcome::Done { consumed: 11 });
    assert!(basic_decoder.trailers().is_some_and(FieldSection::is_empty));

    let mut empty_decoder = new_decoder();
    let (empty_body, empty_outcome) = drive(&mut empty_decoder, b"0\r\n\r\n");
    assert!(empty_body.is_empty());
    assert_eq!(empty_outcome, Outcome::Done { consumed: 5 });
    assert!(empty_decoder.trailers().is_some_and(FieldSection::is_empty));

    let mut partial_decoder = new_decoder();
    let mut partial_arena = BytesMut::new();
    match partial_decoder.decode(b"1\r\nA", &mut partial_arena) {
        Ok(ChunkedEvent::Data { offset, len }) => {
            assert_eq!((offset, len), (3, 1));
            assert_eq!(partial_decoder.consumed_this_call(), 4);
        }
        other => panic!("case 6 first call: expected Data, got {other:?}"),
    }
    assert_eq!(
        partial_decoder.decode(b"", &mut partial_arena),
        Ok(ChunkedEvent::NeedMore)
    );

    let mut ext_too_long = Vec::from(&b"1;ext="[..]);
    ext_too_long.extend(std::iter::repeat_n(b'a', 300));
    ext_too_long.extend_from_slice(b"\r\nA\r\n0\r\n\r\n");
    let mut ext_cap_decoder = new_decoder();
    assert_eq!(
        drive(&mut ext_cap_decoder, &ext_too_long).1,
        Outcome::Refused(ChunkExtTooLong)
    );

    let mut huge_size_decoder = new_decoder();
    let mut huge_size_arena = BytesMut::new();
    assert_eq!(
        huge_size_decoder.decode(b"FFFFFFFFFFFFFFFF\r\n", &mut huge_size_arena),
        Ok(ChunkedEvent::NeedMore)
    );
    assert_eq!(huge_size_decoder.consumed_this_call(), 18);

    let mut too_many_fields = Vec::from(&b"0\r\n"[..]);
    for i in 0..101 {
        too_many_fields.extend_from_slice(format!("x-{i}: v\r\n").as_bytes());
    }
    too_many_fields.extend_from_slice(b"\r\n");
    let mut field_count_decoder = new_decoder();
    assert_eq!(
        drive(&mut field_count_decoder, &too_many_fields).1,
        Outcome::Refused(FieldCountExceeded)
    );

    let mut over_list = Vec::from(&b"0\r\n"[..]);
    for i in 0..100 {
        let value = "v".repeat(1000);
        over_list.extend_from_slice(format!("x{i:03}: {value}\r\n").as_bytes());
    }
    over_list.extend_from_slice(b"\r\n");
    let mut list_bytes_decoder = new_decoder();
    assert_eq!(
        drive(&mut list_bytes_decoder, &over_list).1,
        Outcome::Refused(HeaderListTooLarge)
    );

    let one_mib = 1024 * 1024;
    let mut large_body_decoder = new_decoder();
    let mut large_body_wire = format!("{one_mib:x}\r\n").into_bytes();
    large_body_wire.extend(std::iter::repeat_n(b'x', one_mib));
    large_body_wire.extend_from_slice(b"\r\n0\r\n\r\n");
    let (large_body, large_body_outcome) =
        drive_split(&mut large_body_decoder, &large_body_wire, 64 * 1024);
    assert_eq!(large_body.len(), one_mib);
    assert!(matches!(large_body_outcome, Outcome::Done { .. }));

    let mut byte_at_a_time_decoder = new_decoder();
    let (drip_body, drip_outcome) =
        drive_split(&mut byte_at_a_time_decoder, b"1\r\nA\r\n0\r\n\r\n", 1);
    assert_eq!(drip_body, b"A");
    assert_eq!(drip_outcome, Outcome::Done { consumed: 11 });

    let mut two_chunk_decoder = new_decoder();
    let (two_chunk_body, two_chunk_outcome) =
        drive(&mut two_chunk_decoder, b"1\r\nA\r\n1\r\nB\r\n0\r\n\r\n");
    assert_eq!(two_chunk_body, b"AB");
    assert!(matches!(two_chunk_outcome, Outcome::Done { .. }));

    let mut idempotent_decoder = new_decoder();
    let mut idempotent_arena = BytesMut::new();
    assert_eq!(
        drive(&mut idempotent_decoder, b"0\r\n\r\n").1,
        Outcome::Done { consumed: 5 }
    );
    assert!(idempotent_decoder.is_done());
    assert_eq!(
        idempotent_decoder.decode(b"whatever", &mut idempotent_arena),
        Ok(ChunkedEvent::Done { consumed: 0 })
    );
    assert_eq!(idempotent_decoder.consumed_this_call(), 0);
    assert_eq!(
        idempotent_decoder.decode(b"", &mut idempotent_arena),
        Ok(ChunkedEvent::Done { consumed: 0 })
    );

    let mut binary_decoder = new_decoder();
    let mut binary_wire = Vec::from(&b"4\r\n"[..]);
    binary_wire.extend_from_slice(&[0xFF, 0xFE, 0x00, 0x80]);
    binary_wire.extend_from_slice(b"\r\n0\r\n\r\n");
    let (binary_body, binary_outcome) = drive(&mut binary_decoder, &binary_wire);
    assert_eq!(binary_body, vec![0xFF, 0xFE, 0x00, 0x80]);
    assert!(matches!(binary_outcome, Outcome::Done { .. }));

    let mut d_split_trailer = new_decoder();
    let mut arena_st = BytesMut::new();
    match d_split_trailer.decode(b"0\r\nx-check", &mut arena_st) {
        Ok(ChunkedEvent::NeedMore) => {
            assert_eq!(d_split_trailer.consumed_this_call(), 3);
        }
        other => panic!("expected NeedMore consuming only \"0\\r\\n\", got {other:?}"),
    }
    match d_split_trailer.decode(b"x-checksum: abc\r\n\r\n", &mut arena_st) {
        Ok(ChunkedEvent::Done { consumed }) => {
            assert_eq!(consumed, 19);
        }
        other => panic!("expected Done, got {other:?}"),
    }
    assert_eq!(
        d_split_trailer
            .trailers()
            .and_then(|t| t.get_unique(b"x-checksum").ok().flatten()),
        Some(&b"abc"[..])
    );
}

fn trailer_snapshot(section: Option<&FieldSection>) -> Vec<(Vec<u8>, Vec<u8>)> {
    section.map_or_else(Vec::new, |t| {
        (0..t.len())
            .map(|i| {
                (
                    t.name_at(i).expect("in range").to_vec(),
                    t.value_at(i).expect("in range").to_vec(),
                )
            })
            .collect()
    })
}

const TRAILER_DENIED: [KnownHeader; 18] = [
    KnownHeader::TransferEncoding,
    KnownHeader::ContentLength,
    KnownHeader::Host,
    KnownHeader::Expect,
    KnownHeader::MaxForwards,
    KnownHeader::CacheControl,
    KnownHeader::IfMatch,
    KnownHeader::IfNoneMatch,
    KnownHeader::IfModifiedSince,
    KnownHeader::IfUnmodifiedSince,
    KnownHeader::IfRange,
    KnownHeader::Range,
    KnownHeader::Te,
    KnownHeader::Authorization,
    KnownHeader::ProxyAuthorization,
    KnownHeader::Cookie,
    KnownHeader::SetCookie,
    KnownHeader::Trailer,
];

/// A decoder in its trailer section that has searched so many bytes.
fn in_trailers_after(searched: u64, arena: &mut BytesMut) -> ChunkedDecoder {
    let mut decoder = new_decoder();
    assert_eq!(decoder.decode(b"0\r\n", arena), Ok(ChunkedEvent::NeedMore));
    assert_eq!(decoder.consumed_this_call(), 3);
    let mut left = searched;
    while left > 0 {
        let n = left.min(8000);
        let line = vec![b'v'; usize::try_from(n).expect("small")];
        assert_eq!(decoder.decode(&line, arena), Ok(ChunkedEvent::NeedMore));
        assert_eq!(decoder.consumed_this_call(), 0);
        left -= n;
    }
    decoder
}

#[test]
fn split_invariance() {
    let inputs: [&[u8]; 9] = [
        b"1\r\nA\r\n0\r\n\r\n",
        b"1;ext=value\r\nA\r\n0\r\n\r\n",
        b"1\r\nA\r\n1\r\nB\r\n0\r\n\r\n",
        b"0\r\n\r\n",
        b"0\r\nX-Checksum: abc\r\n\r\n",
        b"5\r\nhello\r\n0\r\n\r\n",
        b"1\r\nA\r\n0\r\nX-A: 1\r\nX-B: 2\r\n\r\n",
        b"3\r\nfoo\r\n2\r\nba\r\n0\r\n\r\n",
        b"1;e=\"a\\\"z\"\r\nA\r\n0\r\n\r\n",
    ];

    for input in inputs {
        let mut whole_decoder = new_decoder();
        let (whole_data, whole_outcome) = drive(&mut whole_decoder, input);
        let whole_trailers = trailer_snapshot(whole_decoder.trailers());

        for split in 1..=input.len() {
            let mut decoder = new_decoder();
            let (data, outcome) = drive_split(&mut decoder, input, split);
            assert_eq!(
                data, whole_data,
                "input {input:?} split {split}: Data bytes disagreed"
            );
            assert_eq!(
                outcome, whole_outcome,
                "input {input:?} split {split}: final outcome disagreed"
            );
            assert_eq!(
                trailer_snapshot(decoder.trailers()),
                whole_trailers,
                "input {input:?} split {split}: trailer section disagreed"
            );
        }
    }
}

#[test]
fn size_grammar() {
    let cases: &[(&[u8], RejectReason)] = &[
        (b"+1\r\nA\r\n0\r\n\r\n", ChunkSizeInvalid),
        (b" 1\r\nA\r\n0\r\n\r\n", ChunkSizeInvalid),
        (b"1 \r\nA\r\n0\r\n\r\n", ChunkSizeInvalid),
        (b"0x1\r\nA\r\n0\r\n\r\n", ChunkSizeInvalid),
        (b"\r\n", ChunkSizeInvalid),
        (b"FFFFFFFFFFFFFFFFF\r\n", ChunkSizeOverflow),
    ];
    for (input, reason) in cases {
        let mut decoder = new_decoder();
        assert_eq!(
            drive(&mut decoder, input).1,
            Outcome::Refused(*reason),
            "{input:?}"
        );
    }

    let mut decoder = new_decoder();
    let mut arena = BytesMut::new();
    assert_eq!(
        decoder.decode(b"FFFFFFFFFFFFFFFF\r\n", &mut arena),
        Ok(ChunkedEvent::NeedMore)
    );
}

#[test]
fn terminator_strictness() {
    let cases: [&[u8]; 5] = [
        b"1\rA\r\n0\r\n\r\n",
        b"1\nA\r\n0\r\n\r\n",
        b"1\r\nA\n0\r\n\r\n",
        b"1\r\nA\rX0\r\n\r\n",
        b"1\r\nAB\r\n0\r\n\r\n",
    ];
    for input in cases {
        let mut decoder = new_decoder();
        assert_eq!(
            drive(&mut decoder, input).1,
            Outcome::Refused(ChunkTerminatorInvalid),
            "{input:?}"
        );
    }
}

#[test]
fn ext_grammar() {

    let mut ok1 = new_decoder();
    assert_eq!(
        drive(&mut ok1, b"1;ext=value\r\nA\r\n0\r\n\r\n").1,
        Outcome::Done { consumed: 21 }
    );

    let mut ok2 = new_decoder();
    assert_eq!(
        drive(&mut ok2, b"1;ext=\"quoted;with;semis\"\r\nA\r\n0\r\n\r\n").1,
        Outcome::Done { consumed: 35 }
    );

    let bad: [&[u8]; 3] = [
        b"1;ext=\"unterminated\r\nA\r\n0\r\n\r\n",
        b"1;\r\nA\r\n0\r\n\r\n",
        b"1;;a=b\r\nA\r\n0\r\n\r\n",
    ];
    for input in bad {
        let mut decoder = new_decoder();
        assert_eq!(
            drive(&mut decoder, input).1,
            Outcome::Refused(ChunkExtInvalid),
            "{input:?}"
        );
    }

    let mut too_long = Vec::from(&b"1;ext="[..]);
    too_long.extend(std::iter::repeat_n(b'a', 300));
    too_long.extend_from_slice(b"\r\nA\r\n0\r\n\r\n");
    let mut decoder = new_decoder();
    assert_eq!(
        drive(&mut decoder, &too_long).1,
        Outcome::Refused(RejectReason::ChunkExtTooLong)
    );
}

#[test]
fn trailer_deny_list() {
    assert_eq!(TRAILER_DENIED.len(), 18);

    for denied in TRAILER_DENIED {
        let name = denied.as_bytes();
        let mut wire = Vec::from(&b"0\r\n"[..]);
        wire.extend_from_slice(name);
        wire.extend_from_slice(b": x\r\n\r\n");
        let mut decoder = new_decoder();
        assert_eq!(
            drive(&mut decoder, &wire).1,
            Outcome::Refused(RejectReason::TrailerFieldForbidden),
            "{denied:?} ({name:?}) was not refused as a trailer field"
        );
    }

    let mut accepted = new_decoder();
    assert!(matches!(
        drive(&mut accepted, b"0\r\nx-checksum: abc\r\n\r\n").1,
        Outcome::Done { .. }
    ));
}

#[test]
fn trailers_are_not_merged() {
    let mut decoder = new_decoder();
    let (data, outcome) = drive(&mut decoder, b"0\r\nX-Checksum: abc\r\n\r\n");
    assert!(data.is_empty());
    assert!(matches!(outcome, Outcome::Done { .. }));

    let trailers = decoder
        .trailers()
        .expect("trailer section must be present after Done");
    assert_eq!(trailers.get_unique(b"x-checksum"), Ok(Some(&b"abc"[..])));
    assert_eq!(trailers.len(), 1);

    let _: &FieldSection = trailers;
}

#[test]
fn consumed_is_exact_with_trailing_bytes() {
    let mut decoder = new_decoder();
    let mut arena = BytesMut::new();
    let full = b"0\r\n\r\nGARBAGE";
    match decoder.decode(full, &mut arena) {
        Ok(ChunkedEvent::Done { consumed }) => {
            assert_eq!(consumed, 5);
            assert_eq!(decoder.consumed_this_call(), 5);
            assert_eq!(full.get(consumed..), Some(&b"GARBAGE"[..]));
        }
        other => panic!("expected Done, got {other:?}"),
    }
}

#[test]
fn trailer_rescan_is_bounded() {
    let mut wire = Vec::from(&b"0\r\nx-a: "[..]);
    wire.extend(std::iter::repeat_n(b'v', 4096));
    let mut decoder = new_decoder();
    let mut pos = 0usize;
    let mut revealed = 0usize;
    let mut calls = 0u64;
    let mut arena = BytesMut::new();
    let outcome = loop {
        if revealed < wire.len() {
            revealed = revealed.saturating_add(1).min(wire.len());
        }
        let buf = wire.get(pos..revealed).unwrap_or(&[]);
        calls = calls.saturating_add(1);
        match decoder.decode(buf, &mut arena) {
            Ok(ChunkedEvent::NeedMore) => {
                let consumed = decoder.consumed_this_call();
                pos = pos.saturating_add(consumed);
                if consumed == 0 && revealed >= wire.len() {
                    break Outcome::NeedMore;
                }
                assert!(
                    calls < 10_000_000,
                    "decoder is looping rather than bounding the re-scan"
                );
            }
            Ok(ChunkedEvent::Done { consumed }) => break Outcome::Done { consumed },
            Err(reason) => break Outcome::Refused(reason),
            Ok(ChunkedEvent::Data { .. }) => {
                panic!("a trailer-only body must never produce a Data event")
            }
        }
    };
    assert_eq!(outcome, Outcome::Refused(RejectReason::FieldLineTooLong));
    assert!(
        (1_000..10_000).contains(&calls),
        "expected on the order of a few thousand decode calls before the \
         4 MiB scan budget fires, got {calls}"
    );

    let mut normal = Vec::from(&b"0\r\n"[..]);
    for i in 0..8 {
        normal.extend_from_slice(format!("x-{i}: v\r\n").as_bytes());
    }
    normal.extend_from_slice(b"\r\n");
    let mut normal_decoder = new_decoder();
    let split = normal.len().checked_div(2).unwrap_or(1).max(1);
    let (normal_body, normal_outcome) = drive_split(&mut normal_decoder, &normal, split);
    assert!(normal_body.is_empty());
    assert!(matches!(normal_outcome, Outcome::Done { .. }));
}

#[test]
fn chunk_data_bytes_are_never_inspected() {
    let one_mib = 1024 * 1024;
    let mut wire = format!("{one_mib:x}\r\n").into_bytes();
    wire.extend(std::iter::repeat_n(0xFFu8, one_mib));
    wire.extend_from_slice(b"\r\n0\r\n\r\n");

    let mut decoder = new_decoder();
    let (data, outcome) = drive(&mut decoder, &wire);
    assert_eq!(data.len(), one_mib);
    assert!(data.iter().all(|&b| b == 0xFF));
    assert!(matches!(outcome, Outcome::Done { .. }));
}

#[test]
fn ext_top_level_accepts_ows_and_refuses_other_bytes() {
    let mut with_space = new_decoder();
    assert!(matches!(
        drive(&mut with_space, b"1;ext=a b\r\nA\r\n0\r\n\r\n").1,
        Outcome::Done { .. }
    ));

    let mut with_tab = new_decoder();
    assert!(matches!(
        drive(&mut with_tab, b"1;ext=a\tb\r\nA\r\n0\r\n\r\n").1,
        Outcome::Done { .. }
    ));

    let mut with_nul = new_decoder();
    assert_eq!(
        drive(&mut with_nul, b"1;ext=a\0b\r\nA\r\n0\r\n\r\n").1,
        Outcome::Refused(RejectReason::ChunkExtInvalid)
    );
}

#[test]
fn delivered_tracks_the_true_cumulative_total() {
    let mut decoder = new_decoder();
    assert_eq!(decoder.delivered(), 0);

    let mut arena = BytesMut::new();
    assert_eq!(
        decoder.decode(b"3\r\nfoo\r\n2\r\nba\r\n0\r\n\r\n", &mut arena),
        Ok(ChunkedEvent::Data { offset: 3, len: 3 })
    );
    assert_eq!(decoder.delivered(), 3);

    let full: &[u8] = b"3\r\nfoo\r\n2\r\nba\r\n0\r\n\r\n";
    let remainder = full.get(decoder.consumed_this_call()..).unwrap_or(&[]);
    let (data, outcome) = drive(&mut decoder, remainder);
    assert_eq!(data, b"ba");
    assert!(matches!(outcome, Outcome::Done { .. }));
    assert_eq!(decoder.delivered(), 5);
}

#[test]
fn is_done_is_false_before_completion() {
    let decoder = new_decoder();
    assert!(!decoder.is_done());

    let mut mid_decoder = new_decoder();
    let mut arena = BytesMut::new();
    assert_eq!(
        mid_decoder.decode(b"1\r\nA\r\n", &mut arena),
        Ok(ChunkedEvent::Data { offset: 3, len: 1 })
    );
    assert!(!mid_decoder.is_done());
}

#[test]
fn ext_bytes_cap_is_exact() {
    let cap = usize::try_from(Limits::default().max_chunk_ext_bytes).unwrap_or(0);

    let mut at_cap = Vec::from(&b"1;"[..]);
    at_cap.extend(std::iter::repeat_n(b'a', cap.saturating_sub(2)));
    at_cap.extend_from_slice(b"\r\nA\r\n0\r\n\r\n");
    let mut decoder = new_decoder();
    assert!(matches!(
        drive(&mut decoder, &at_cap).1,
        Outcome::Done { .. }
    ));

    let mut over_cap = Vec::from(&b"1;"[..]);
    over_cap.extend(std::iter::repeat_n(b'a', cap.saturating_sub(1)));
    over_cap.extend_from_slice(b"\r\nA\r\n0\r\n\r\n");
    let mut decoder2 = new_decoder();
    assert_eq!(
        drive(&mut decoder2, &over_cap).1,
        Outcome::Refused(RejectReason::ChunkExtTooLong)
    );
}

#[test]
fn trailer_search_cap_is_exact() {
    let search_cap = usize::try_from(Limits::default().max_field_line_bytes)
        .unwrap_or(0)
        .saturating_add(TRAILER_SEARCH_CAP_SLACK);

    let mut at_cap = Vec::from(&b"0\r\n"[..]);
    at_cap.extend(std::iter::repeat_n(b'v', search_cap));
    let mut decoder = new_decoder();
    let mut arena = BytesMut::new();
    assert_eq!(
        decoder.decode(&at_cap, &mut arena),
        Ok(ChunkedEvent::NeedMore)
    );

    let mut over_cap = Vec::from(&b"0\r\n"[..]);
    over_cap.extend(std::iter::repeat_n(b'v', search_cap.saturating_add(1)));
    let mut decoder2 = new_decoder();
    assert_eq!(
        drive(&mut decoder2, &over_cap).1,
        Outcome::Refused(RejectReason::FieldLineTooLong)
    );
}

#[test]
fn trailer_line_length_cap_is_exact() {
    let cap = usize::try_from(Limits::default().max_field_line_bytes).unwrap_or(0);
    let value_len = cap.saturating_sub(3);

    let mut at_cap = Vec::from(&b"0\r\nx-a: "[..]);
    at_cap.extend(std::iter::repeat_n(b'v', value_len));
    at_cap.extend_from_slice(b"\r\n\r\n");
    let mut decoder = new_decoder();
    assert!(matches!(
        drive(&mut decoder, &at_cap).1,
        Outcome::Done { .. }
    ));

    let mut over_cap = Vec::from(&b"0\r\nx-a: "[..]);
    over_cap.extend(std::iter::repeat_n(b'v', value_len.saturating_add(1)));
    over_cap.extend_from_slice(b"\r\n\r\n");
    let mut decoder2 = new_decoder();
    assert_eq!(
        drive(&mut decoder2, &over_cap).1,
        Outcome::Refused(RejectReason::FieldLineTooLong)
    );
}

#[test]
fn trailer_scan_budget_is_exact() {
    let mut arena = BytesMut::new();
    let mut decoder = in_trailers_after(HeadScanBudget::MAX_BYTES - 1, &mut arena);
    assert_eq!(decoder.decode(b"v", &mut arena), Ok(ChunkedEvent::NeedMore));
    assert_eq!(
        decoder.decode(b"v", &mut arena),
        Err(RejectReason::FieldLineTooLong)
    );
}

#[test]
fn trailer_scan_budget_is_exact_on_a_found_line() {
    let line: &[u8] = b"x-a: 1\r\n";

    let mut at_cap_arena = BytesMut::new();
    let mut at_cap = in_trailers_after(HeadScanBudget::MAX_BYTES - 8, &mut at_cap_arena);
    assert_eq!(
        at_cap.decode(line, &mut at_cap_arena),
        Ok(ChunkedEvent::NeedMore)
    );
    assert_eq!(at_cap.consumed_this_call(), 8);

    let mut over_cap_arena = BytesMut::new();
    let mut over_cap = in_trailers_after(HeadScanBudget::MAX_BYTES - 7, &mut over_cap_arena);
    assert_eq!(
        over_cap.decode(line, &mut over_cap_arena),
        Err(RejectReason::FieldLineTooLong)
    );
}

#[test]
fn trailer_deny_list_holds_under_map_to_hyphen() {
    let limits = Limits::default().clamped();
    let mut decoder = ChunkedDecoder::new(&limits, UnderscorePolicy::MapToHyphen);
    assert_eq!(
        drive(&mut decoder, b"0\r\nContent_Length: 10\r\n\r\n").1,
        Outcome::Refused(RejectReason::TrailerFieldForbidden)
    );
}

#[test]
fn trailer_field_split_byte_by_byte_is_readable_after_done() {
    let wire: &[u8] = b"0\r\nX-Checksum: abc\r\n\r\n";
    let mut decoder = new_decoder();
    let mut pos = 0usize;
    let mut revealed = 0usize;
    let mut arena = BytesMut::new();
    loop {
        if revealed < wire.len() {
            revealed += 1;
        }
        let buf = wire.get(pos..revealed).unwrap_or(&[]);
        match decoder.decode(buf, &mut arena) {
            Ok(ChunkedEvent::NeedMore) => {
                pos = pos.saturating_add(decoder.consumed_this_call());
            }
            Ok(ChunkedEvent::Done { consumed }) => {
                pos = pos.saturating_add(consumed);
                break;
            }
            other => panic!("unexpected: {other:?}"),
        }
    }
    assert_eq!(pos, 22);
    let trailers = decoder.trailers().expect("trailers must be present");
    assert_eq!(trailers.len(), 1, "the field slot must exist");
    assert_eq!(trailers.get_unique(b"x-checksum"), Ok(Some(&b"abc"[..])));
}

#[test]
fn trailer_scan_charges_only_bytes_searched_not_the_whole_window() {
    let buf: &[u8] = b"x-a: 1\r\nx-b: 2\r\n\r\n";
    let mut arena = BytesMut::new();
    let mut decoder = in_trailers_after(HeadScanBudget::MAX_BYTES - 18, &mut arena);
    assert_eq!(
        decoder.decode(buf, &mut arena),
        Ok(ChunkedEvent::Done { consumed: 18 })
    );

    let mut arena = BytesMut::new();
    let mut decoder = in_trailers_after(HeadScanBudget::MAX_BYTES - 17, &mut arena);
    assert_eq!(
        decoder.decode(buf, &mut arena),
        Err(RejectReason::FieldLineTooLong)
    );
}

#[test]
fn many_chunks_reset_per_chunk_state() {
    let mut wire = Vec::new();
    let mut expected = Vec::new();
    for i in 0..20u8 {
        let byte = b'a'.wrapping_add(i % 26);
        wire.extend_from_slice(b"1\r\n");
        wire.push(byte);
        wire.extend_from_slice(b"\r\n");
        expected.push(byte);
    }
    wire.extend_from_slice(b"0\r\n\r\n");
    let mut decoder = new_decoder();
    let (data, outcome) = drive(&mut decoder, &wire);
    assert_eq!(data, expected);
    assert!(matches!(outcome, Outcome::Done { .. }));

    let mut wire_ext = Vec::new();
    let mut expected_ext = Vec::new();
    for i in 0..20u8 {
        let byte = b'a'.wrapping_add(i % 26);
        if i % 2 == 0 {
            wire_ext.extend_from_slice(b"1;e=1\r\n");
        } else {
            wire_ext.extend_from_slice(b"1\r\n");
        }
        wire_ext.push(byte);
        wire_ext.extend_from_slice(b"\r\n");
        expected_ext.push(byte);
    }
    wire_ext.extend_from_slice(b"0\r\n\r\n");
    let mut decoder_ext = new_decoder();
    let (data_ext, outcome_ext) = drive(&mut decoder_ext, &wire_ext);
    assert_eq!(data_ext, expected_ext);
    assert!(matches!(outcome_ext, Outcome::Done { .. }));
}

#[test]
fn trailer_deny_list_when_not_first_field() {
    for denied in TRAILER_DENIED {
        let name = denied.as_bytes();
        let mut wire = Vec::from(&b"0\r\nx-before: 1\r\n"[..]);
        wire.extend_from_slice(name);
        wire.extend_from_slice(b": x\r\n\r\n");
        let mut decoder = new_decoder();
        assert_eq!(
            drive(&mut decoder, &wire).1,
            Outcome::Refused(RejectReason::TrailerFieldForbidden),
            "{denied:?} ({name:?}) not refused when not the first trailer field"
        );
    }
}

#[test]
fn prop_split_invariance() {
    let mut state = 0x0f1e_2d3c_4b5a_6978_u64;
    let mut below = move |n: usize| -> usize {
        state ^= state << 13;
        state ^= state >> 7;
        state ^= state << 17;
        (state % n as u64) as usize
    };
    let extensions = ["", ";ab", ";n=\"v;z\"", ";n=\"a\\\"z\"", ";abcdefgh"];
    for _ in 0..400 {
        let mut wire = Vec::new();
        let mut expected_body = Vec::new();
        for _ in 0..1 + below(8) {
            let len = 1 + below(32);
            let bytes: Vec<u8> = (0..len).map(|i| b'a'.wrapping_add((i % 26) as u8)).collect();
            wire.extend_from_slice(format!("{len:x}").as_bytes());
            wire.extend_from_slice(extensions[below(5)].as_bytes());
            wire.extend_from_slice(b"\r\n");
            wire.extend_from_slice(&bytes);
            wire.extend_from_slice(b"\r\n");
            expected_body.extend_from_slice(&bytes);
        }
        wire.extend_from_slice(b"0\r\n");
        for _ in 0..below(5) {
            let name: String = (0..1 + below(8)).map(|_| (b'a' + below(26) as u8) as char).collect();
            let value: String = (0..below(9)).map(|_| (b'a' + below(26) as u8) as char).collect();
            wire.extend_from_slice(format!("x-{name}: {value}\r\n").as_bytes());
        }
        wire.extend_from_slice(b"\r\n");

        let mut whole_decoder = new_decoder();
        let (whole_data, whole_outcome) = drive(&mut whole_decoder, &wire);
        assert_eq!(whole_data, expected_body);
        assert_eq!(whole_outcome, Outcome::Done { consumed: wire.len() });
        let whole_trailers = trailer_snapshot(whole_decoder.trailers());

        let mut decoder = new_decoder();
        let mut pos = 0usize;
        let mut revealed = 0usize;
        let mut data = Vec::new();
        let mut arena = BytesMut::new();
        let outcome = loop {
            if revealed < wire.len() {
                revealed = (revealed + 1 + below(16)).min(wire.len());
            }
            let buf = wire.get(pos..revealed).unwrap_or(&[]);
            match decoder.decode(buf, &mut arena) {
                Ok(ChunkedEvent::Data { offset, len }) => {
                    data.extend_from_slice(&buf[offset..offset + len]);
                    pos += decoder.consumed_this_call();
                }
                Ok(ChunkedEvent::NeedMore) => {
                    let consumed = decoder.consumed_this_call();
                    if consumed == 0 && revealed == wire.len() {
                        break Outcome::NeedMore;
                    }
                    pos += consumed;
                }
                Ok(ChunkedEvent::Done { consumed }) => {
                    break Outcome::Done { consumed: pos + consumed };
                }
                Err(reason) => break Outcome::Refused(reason),
            }
        };
        assert_eq!(data, whole_data);
        assert_eq!(outcome, whole_outcome);
        assert_eq!(trailer_snapshot(decoder.trailers()), whole_trailers);
    }
}
