//! What the target and the `Host` of a request name.
use crate::authority::{
    authority_bytes_error, bracketed, host_byte, host_text_ok, lemma_bytes_error, literal_byte,
    parse_authority, reconciled, AuthorityView,
};
use crate::error::RejectReason;
use crate::h1::canonicalize::{absolute_parts, authority_end, request_of, target_parts, H1Context};
use crate::known::KnownHeader;
use crate::laws::bodies::{all_digits10, number10};
use crate::laws::names::{law_none_named, law_one_named, law_two_named, none_named, one_named};
use crate::path::{parse_path, scheme_mark, target_form, TargetForm};
use crate::scalar::{Method, Scheme, WireVersion};
use crate::section::Field;
use crate::text::{
    ascii, find, lemma_ascii, lemma_find, lemma_find_is, lemma_find_seq, lemma_find_seq_is,
    lemma_rfind_is, lower_all, occurs_at,
};
use vstd::prelude::*;

verus! {

// ---- authorities ----

/// A byte of a host name.
pub open spec fn name_host_byte(b: u8) -> bool {
    48 <= b <= 57 || 65 <= b <= 90 || 97 <= b <= 122 || b == 33 || b == 36 || 38 <= b <= 46 || b
        == 59 || b == 61 || b == 95 || b == 126
}

/// A byte between the brackets of an address.
pub open spec fn address_byte(b: u8) -> bool {
    48 <= b <= 57 || 65 <= b <= 70 || 97 <= b <= 102 || b == 58 || b == 46
}

/// A host: a name that is not a lone dot, or an address with a colon in it
/// between brackets.
pub open spec fn names_host(h: Seq<u8>) -> bool {
    ||| h.len() > 0 && h != seq![46u8] && forall|i: int|
        0 <= i < h.len() ==> name_host_byte(#[trigger] h[i])
    ||| {
        &&& h.len() >= 3
        &&& h[0] == 91
        &&& h.last() == 93
        &&& forall|i: int| 1 <= i < h.len() - 1 ==> address_byte(#[trigger] h[i])
        &&& exists|i: int| 1 <= i < h.len() - 1 && #[trigger] h[i] == 58
    }
}

proof fn lemma_host(h: Seq<u8>)
    requires
        names_host(h),
    ensures
        forall|i: int| 0 <= i < h.len() ==> host_byte(#[trigger] h[i]),
        host_text_ok(h),
        bracketed(h) ==> find(h, ']' as u8, 0) == h.len() - 1,
        !bracketed(h) ==> forall|i: int| 0 <= i < h.len() ==> #[trigger] h[i] != 58,
{
    if bracketed(h) {
        assert(!name_host_byte(h[0]));
        assert forall|i: int| 0 <= i < h.len() implies host_byte(#[trigger] h[i]) by {
            if 1 <= i < h.len() - 1 {
                assert(address_byte(h[i]));
            }
        }
        assert forall|i: int| 0 <= i < h.len() - 1 implies h[i] != ']' as u8 by {
            if 1 <= i {
                assert(address_byte(h[i]));
            }
        }
        lemma_find_is(h, ']' as u8, 0, h.len() - 1);
        let inner = h.subrange(1, h.len() - 1);
        let i = choose|i: int| 1 <= i < h.len() - 1 && #[trigger] h[i] == 58;
        assert(inner[i - 1] == 58);
        assert forall|j: int| 0 <= j < inner.len() implies literal_byte(#[trigger] inner[j]) by {
            assert(address_byte(h[j + 1]));
        }
    } else {
        assert forall|i: int| 0 <= i < h.len() implies name_host_byte(#[trigger] h[i]) by {}
        assert forall|i: int| 0 <= i < h.len() implies host_byte(#[trigger] h[i]) by {
            assert(name_host_byte(h[i]));
        }
        assert forall|i: int| 0 <= i < h.len() implies #[trigger] h[i] != 58 && h[i] != 91 && h[i]
            != 93 && h[i] != 37 by {
            assert(name_host_byte(h[i]));
        }
    }
}

/// A host alone is read as that host in lowercase, without a port.
pub proof fn law_host_alone(h: Seq<u8>, scheme: Scheme, max_bytes: u32)
    requires
        names_host(h),
        h.len() <= max_bytes,
    ensures
        parse_authority(h, scheme, max_bytes) == Ok::<AuthorityView, RejectReason>(
            AuthorityView { host: lower_all(h), port: None },
        ),
{
    lemma_host(h);
    lemma_bytes_error(h, 0);
    if !bracketed(h) {
        lemma_find(h, ':' as u8, 0);
        let at = find(h, ':' as u8, 0);
        if at < h.len() {
            assert(h[at] == 58);
        }
    }
}

/// A host, a colon and digits are read as the host in lowercase and the port,
/// which is left out where it is that of the scheme: 80 for `http` and 443 for
/// `https`. What is not one to five digits that write 1 to 65535 is refused.
pub proof fn law_host_and_port(h: Seq<u8>, d: Seq<u8>, scheme: Scheme, max_bytes: u32)
    requires
        names_host(h),
        all_digits10(d),
        h.len() + 1 + d.len() <= max_bytes,
    ensures
        ({
            let port = number10(d);
            let default: int = match scheme {
                Scheme::Http => 80,
                Scheme::Https => 443,
            };
            parse_authority(h + seq![58u8] + d, scheme, max_bytes) == if 1 <= d.len() <= 5 && 1
                <= port <= 65535 {
                Ok::<AuthorityView, RejectReason>(
                    AuthorityView {
                        host: lower_all(h),
                        port: if port == default {
                            None
                        } else {
                            Some(port as u16)
                        },
                    },
                )
            } else {
                Err(RejectReason::AuthorityPortInvalid)
            }
        }),
{
    let raw = h + seq![58u8] + d;
    let n = h.len() as int;
    lemma_host(h);
    crate::laws::bodies::lemma_number10(d);
    assert forall|j: int| 0 <= j < raw.len() implies host_byte(#[trigger] raw[j]) by {
        if j < n {
            assert(raw[j] == h[j]);
        } else if j > n {
            assert(raw[j] == d[j - n - 1]);
            assert(48 <= d[j - n - 1] <= 57);
        }
    }
    lemma_bytes_error(raw, 0);
    assert(raw.take(n) =~= h);
    assert(raw.skip(n + 1) =~= d);
    assert(raw[n] == 58);
    if bracketed(h) {
        lemma_find(h, ']' as u8, 0);
        assert forall|j: int| 0 <= j < n - 1 implies raw[j] != ']' as u8 by {
            assert(raw[j] == h[j]);
        }
        assert(raw[n - 1] == h[n - 1]);
        lemma_find_is(raw, ']' as u8, 0, n - 1);
    } else {
        assert forall|j: int| 0 <= j < n implies raw[j] != ':' as u8 by {
            assert(raw[j] == h[j]);
        }
        lemma_find_is(raw, ':' as u8, 0, n);
        assert forall|j: int| n < j < raw.len() implies raw[j] != ':' as u8 by {
            assert(raw[j] == d[j - n - 1]);
            assert(48 <= d[j - n - 1] <= 57);
        }
        lemma_rfind_is(raw, ':' as u8, raw.len() as int, n);
    }
}

/// The first byte that may not stand in an authority refuses it: as not ASCII
/// from 128 on, as invalid otherwise. An empty one and one that is too long are
/// refused before.
pub proof fn law_bad_authority_byte(raw: Seq<u8>, i: int, scheme: Scheme, max_bytes: u32)
    requires
        0 <= i < raw.len() <= max_bytes,
        forall|j: int|
            0 <= j < i ==> name_host_byte(#[trigger] raw[j]) || raw[j] == 58 || raw[j] == 91
                || raw[j] == 93 || raw[j] == 37,
        !name_host_byte(raw[i]) && raw[i] != 58 && raw[i] != 91 && raw[i] != 93 && raw[i] != 37,
    ensures
        parse_authority(raw, scheme, max_bytes) == Err::<AuthorityView, RejectReason>(
            if raw[i] >= 128 {
                RejectReason::AuthorityNonAscii
            } else {
                RejectReason::AuthorityInvalidByte
            },
        ),
        parse_authority(Seq::empty(), scheme, max_bytes) == Err::<AuthorityView, RejectReason>(
            RejectReason::AuthorityEmpty,
        ),
{
    lemma_first_bad(raw, 0, i);
}

proof fn lemma_first_bad(raw: Seq<u8>, from: int, i: int)
    requires
        0 <= from <= i < raw.len(),
        forall|j: int|
            from <= j < i ==> name_host_byte(#[trigger] raw[j]) || raw[j] == 58 || raw[j] == 91
                || raw[j] == 93 || raw[j] == 37,
    ensures
        authority_bytes_error(raw, from) == authority_bytes_error(raw, i),
    decreases i - from,
{
    if from < i {
        assert(name_host_byte(raw[from]) || raw[from] == 58 || raw[from] == 91 || raw[from] == 93
            || raw[from] == 37);
        lemma_first_bad(raw, from + 1, i);
    }
}

/// What is longer than allowed is refused as too long.
pub proof fn law_long_authority(raw: Seq<u8>, scheme: Scheme, max_bytes: u32)
    requires
        raw.len() > max_bytes,
    ensures
        raw.len() > 0,
        parse_authority(raw, scheme, max_bytes) == Err::<AuthorityView, RejectReason>(
            RejectReason::AuthorityTooLong,
        ),
{
}

// ---- forms ----

/// The form of a target: an authority for `CONNECT`; otherwise `*`, which is
/// for `OPTIONS` alone, a path, or whatever has `://` in it. There is no other.
pub proof fn law_target_forms(target: Seq<u8>, method: Method, a: Seq<u8>, b: Seq<u8>)
    ensures
        method == Method::Connect ==> target_form(target, method) == Ok::<TargetForm, RejectReason>(
            TargetForm::Authority,
        ),
        method != Method::Connect && method != Method::Options ==> target_form(seq![42u8], method)
            == Err::<TargetForm, RejectReason>(RejectReason::TargetFormInvalid),
        target_form(seq![42u8], Method::Options) == Ok::<TargetForm, RejectReason>(
            TargetForm::Asterisk,
        ),
        method != Method::Connect ==> target_form(seq![47u8] + a, method) == Ok::<
            TargetForm,
            RejectReason,
        >(TargetForm::Origin),
        method != Method::Connect && a.len() > 0 && a[0] != 47 ==> target_form(
            a + seq![58u8, 47u8, 47u8] + b,
            method,
        ) == Ok::<TargetForm, RejectReason>(TargetForm::Absolute),
        method != Method::Connect && target.len() > 0 && target[0] != 47 && target != seq![42u8]
            && (forall|j: int|
            0 <= j && j + 3 <= target.len() ==> #[trigger] target.subrange(j, j + 3) != seq![
                58u8,
                47u8,
                47u8,
            ]) ==> target_form(target, method) == Err::<TargetForm, RejectReason>(
            RejectReason::TargetFormInvalid,
        ),
{
    assert((seq![47u8] + a)[0] == 47);
    assert(seq![42u8][0] == 42);
    let t = a + seq![58u8, 47u8, 47u8] + b;
    lemma_find_seq(t, scheme_mark(), 0);
    assert(t.subrange(a.len() as int, a.len() as int + 3) =~= seq![58u8, 47u8, 47u8]);
    assert(scheme_mark() =~= seq![58u8, 47u8, 47u8]);
    assert(occurs_at(t, scheme_mark(), a.len() as int));
    if a.len() > 0 {
        assert(t[0] == a[0]);
    }
    lemma_find_seq(target, scheme_mark(), 0);
}

/// A scheme, `://`, an authority and a path: the scheme is `http` or `https`
/// in any case, and the authority goes on to the first `/`, `?` or `#`. Without
/// a path it is `/`.
pub proof fn law_absolute_target(s: Seq<u8>, t: Seq<u8>, p: Seq<u8>)
    requires
        lower_all(s) == ascii("http"@) || lower_all(s) == ascii("https"@),
        forall|i: int|
            0 <= i < t.len() ==> #[trigger] t[i] != 47 && t[i] != 63 && t[i] != 35,
        p.len() == 0 || p[0] == 47 || p[0] == 63 || p[0] == 35,
    ensures
        absolute_parts(s + seq![58u8, 47u8, 47u8] + t + p) == Ok::<
            (Seq<u8>, Seq<u8>),
            RejectReason,
        >(
            (
                t,
                if p.len() == 0 {
                    seq![47u8]
                } else {
                    p
                },
            ),
        ),
        s.len() > 0 && s[0] != 47,
{
    let raw = s + seq![58u8, 47u8, 47u8] + t + p;
    let n = s.len() as int;
    lemma_scheme_words();
    assert(lower_all(s).len() == s.len());
    assert forall|i: int| 0 <= i < n implies #[trigger] s[i] != 58 && s[i] != 47 by {
        assert(97 <= lower_all(s)[i] <= 122);
    }
    assert(scheme_mark() =~= seq![58u8, 47u8, 47u8]);
    assert(raw.subrange(n, n + 3) =~= seq![58u8, 47u8, 47u8]);
    assert(occurs_at(raw, scheme_mark(), n));
    assert forall|j: int| 0 <= j < n implies !occurs_at(raw, scheme_mark(), j) by {
        assert(raw[j] == s[j]);
        if occurs_at(raw, scheme_mark(), j) {
            assert(raw.subrange(j, j + 3)[0] == 58);
        }
    }
    lemma_find_seq_is(raw, scheme_mark(), 0, n);
    assert(raw.take(n) =~= s);
    let rest = raw.skip(n + 3);
    assert(rest =~= t + p);
    lemma_authority_end(rest, t, p, 0);
    assert(rest.take(t.len() as int) =~= t);
    assert(rest.skip(t.len() as int) =~= p);
    if p.len() == 0 {
        assert(rest =~= t);
    }
}

proof fn lemma_authority_end(rest: Seq<u8>, t: Seq<u8>, p: Seq<u8>, i: int)
    requires
        rest == t + p,
        0 <= i <= t.len(),
        forall|j: int|
            0 <= j < t.len() ==> #[trigger] t[j] != 47 && t[j] != 63 && t[j] != 35,
        p.len() == 0 || p[0] == 47 || p[0] == 63 || p[0] == 35,
    ensures
        authority_end(rest, i) == t.len(),
    decreases t.len() - i,
{
    if i < t.len() {
        assert(rest[i] == t[i]);
        lemma_authority_end(rest, t, p, i + 1);
    } else if p.len() > 0 {
        assert(rest[i] == p[0]);
    }
}

proof fn lemma_scheme_words()
    ensures
        ascii("http"@) == seq!['h' as u8, 't' as u8, 't' as u8, 'p' as u8],
        ascii("https"@) == seq!['h' as u8, 't' as u8, 't' as u8, 'p' as u8, 's' as u8],
        lower_all(ascii("http"@)) == ascii("http"@),
        lower_all(ascii("https"@)) == ascii("https"@),
{
    reveal_strlit("http");
    reveal_strlit("https");
    lemma_ascii("http"@);
    lemma_ascii("https"@);
    assert(ascii("http"@) =~= seq!['h' as u8, 't' as u8, 't' as u8, 'p' as u8]);
    assert(ascii("https"@) =~= seq!['h' as u8, 't' as u8, 't' as u8, 'p' as u8, 's' as u8]);
    assert(lower_all(ascii("http"@)) =~= ascii("http"@));
    assert(lower_all(ascii("https"@)) =~= ascii("https"@));
}

// ---- what a request names ----

/// What becomes of an authority in the target of a request: without a `Host`
/// it stands; a `Host` that reads as the same authority changes nothing; one
/// that reads as another is refused as a mismatch; one that cannot be read is
/// refused for what is wrong with it.
pub open spec fn host_agrees(
    a: AuthorityView,
    fields: Seq<Field>,
    scheme: Scheme,
    max_bytes: u32,
    got: Result<AuthorityView, RejectReason>,
) -> bool {
    &&& none_named(fields, ascii("host"@)) ==> got == Ok::<AuthorityView, RejectReason>(a)
    &&& forall|h: Seq<u8>| #[trigger]
        one_named(fields, ascii("host"@), h) ==> match parse_authority(h, scheme, max_bytes) {
            Ok(b) => if a == b {
                got == Ok::<AuthorityView, RejectReason>(a)
            } else {
                got == Err::<AuthorityView, RejectReason>(RejectReason::AuthorityMismatch)
            },
            Err(e) => got == Err::<AuthorityView, RejectReason>(e),
        }
}

/// The authority that the parts of a target end in, or why there is none.
pub open spec fn authority_part(
    r: Result<(TargetForm, Seq<u8>, Option<Seq<u8>>, AuthorityView), RejectReason>,
) -> Result<AuthorityView, RejectReason> {
    match r {
        Ok((_, _, _, a)) => Ok(a),
        Err(e) => Err(e),
    }
}

/// The authority of an absolute target, which a forward proxy takes, stands
/// beside a `Host` that agrees with it and no other; the path and the query are
/// those of the target. Any other listener refuses the form.
pub proof fn law_absolute_target_and_host(
    method: Method,
    s: Seq<u8>,
    t: Seq<u8>,
    p: Seq<u8>,
    version: WireVersion,
    fields: Seq<Field>,
    ctx: H1Context,
    a: AuthorityView,
    path: Seq<u8>,
    query: Option<Seq<u8>>,
)
    requires
        method != Method::Connect,
        lower_all(s) == ascii("http"@) || lower_all(s) == ascii("https"@),
        forall|i: int|
            0 <= i < t.len() ==> #[trigger] t[i] != 47 && t[i] != 63 && t[i] != 35,
        p.len() == 0 || p[0] == 47 || p[0] == 63 || p[0] == 35,
        parse_authority(t, ctx.scheme, ctx.limits@.max_authority_bytes) == Ok::<
            AuthorityView,
            RejectReason,
        >(a),
        parse_path(
            if p.len() == 0 {
                seq![47u8]
            } else {
                p
            },
            ctx.path_policy,
            ctx.limits@.max_path_bytes,
        ) == Ok::<(Seq<u8>, Option<Seq<u8>>), RejectReason>((path, query)),
    ensures
        ({
            let target = s + seq![58u8, 47u8, 47u8] + t + p;
            let got = target_parts(method, target, version, fields, ctx);
            if ctx.forward_proxy {
                &&& host_agrees(
                    a,
                    fields,
                    ctx.scheme,
                    ctx.limits@.max_authority_bytes,
                    authority_part(got),
                )
                &&& got is Ok ==> got->Ok_0 == (TargetForm::Absolute, path, query, a)
            } else {
                got == Err::<
                    (TargetForm, Seq<u8>, Option<Seq<u8>>, AuthorityView),
                    RejectReason,
                >(RejectReason::TargetFormInvalid)
            }
        }),
{
    let target = s + seq![58u8, 47u8, 47u8] + t + p;
    law_absolute_target(s, t, p);
    law_target_forms(target, method, s, t + p);
    assert(s + seq![58u8, 47u8, 47u8] + (t + p) =~= target);
    let got = target_parts(method, target, version, fields, ctx);
    if none_named(fields, ascii("host"@)) {
        law_none_named(fields, KnownHeader::Host);
    }
    assert forall|h: Seq<u8>| #[trigger] one_named(fields, ascii("host"@), h) implies (match parse_authority(
        h,
        ctx.scheme,
        ctx.limits@.max_authority_bytes,
    ) {
        Ok(b) => if a == b {
            !ctx.forward_proxy || authority_part(got) == Ok::<AuthorityView, RejectReason>(a)
        } else {
            !ctx.forward_proxy || authority_part(got) == Err::<AuthorityView, RejectReason>(
                RejectReason::AuthorityMismatch,
            )
        },
        Err(e) => !ctx.forward_proxy || authority_part(got) == Err::<AuthorityView, RejectReason>(
            e,
        ),
    }) by {
        law_one_named(fields, KnownHeader::Host, h);
    }
}

/// The authority of `CONNECT` stands in the same way.
pub proof fn law_connect_target_and_host(
    t: Seq<u8>,
    version: WireVersion,
    fields: Seq<Field>,
    ctx: H1Context,
    a: AuthorityView,
)
    requires
        parse_authority(t, ctx.scheme, ctx.limits@.max_authority_bytes) == Ok::<
            AuthorityView,
            RejectReason,
        >(a),
    ensures
        ({
            let got = target_parts(Method::Connect, t, version, fields, ctx);
            &&& host_agrees(
                a,
                fields,
                ctx.scheme,
                ctx.limits@.max_authority_bytes,
                authority_part(got),
            )
            &&& got is Ok ==> got->Ok_0 == (
                TargetForm::Authority,
                seq![47u8],
                None::<Seq<u8>>,
                a,
            )
        }),
{
    let got = target_parts(Method::Connect, t, version, fields, ctx);
    let max = ctx.limits@.max_authority_bytes;
    lemma_bytes_error(t, 0);
    assert(host_byte(t[0]));
    assert(t[0] != 47);
    if none_named(fields, ascii("host"@)) {
        law_none_named(fields, KnownHeader::Host);
    }
    assert forall|h: Seq<u8>| #[trigger] one_named(fields, ascii("host"@), h) implies (match parse_authority(
        h,
        ctx.scheme,
        max,
    ) {
        Ok(b) => if a == b {
            authority_part(got) == Ok::<AuthorityView, RejectReason>(a)
        } else {
            authority_part(got) == Err::<AuthorityView, RejectReason>(
                RejectReason::AuthorityMismatch,
            )
        },
        Err(e) => authority_part(got) == Err::<AuthorityView, RejectReason>(e),
    }) by {
        law_one_named(fields, KnownHeader::Host, h);
    }
}

/// A target that is a path, or `*`, takes its authority from `Host`; without
/// one an HTTP/1.1 request is refused, and one of HTTP/1.0 goes to the
/// listener's default host, if there is one.
pub proof fn law_host_names_the_authority(
    method: Method,
    target: Seq<u8>,
    fields: Seq<Field>,
    ctx: H1Context,
    version: WireVersion,
    path: Seq<u8>,
    query: Option<Seq<u8>>,
)
    requires
        version is Http10 || version is Http11,
        ({
            ||| method != Method::Connect && target.len() > 0 && target[0] == 47 && parse_path(
                target,
                ctx.path_policy,
                ctx.limits@.max_path_bytes,
            ) == Ok::<(Seq<u8>, Option<Seq<u8>>), RejectReason>((path, query))
            ||| method == Method::Options && target == seq![42u8] && path == seq![47u8] && query
                == None::<Seq<u8>>
        }),
    ensures
        ({
            let got = target_parts(method, target, version, fields, ctx);
            let max = ctx.limits@.max_authority_bytes;
            &&& forall|h: Seq<u8>| #[trigger]
                one_named(fields, ascii("host"@), h) ==> authority_part(got) == parse_authority(
                    h,
                    ctx.scheme,
                    max,
                )
            &&& none_named(fields, ascii("host"@)) && (version is Http11
                || ctx.default_authority is None) ==> got == Err::<
                (TargetForm, Seq<u8>, Option<Seq<u8>>, AuthorityView),
                RejectReason,
            >(RejectReason::HostMissing)
            &&& none_named(fields, ascii("host"@)) && version is Http10
                && ctx.default_authority is Some ==> authority_part(got) == parse_authority(
                (ctx.default_authority->Some_0)@.host,
                ctx.scheme,
                max,
            )
            &&& got is Ok ==> (got->Ok_0).1 == path && (got->Ok_0).2 == query
        }),
{
    let got = target_parts(method, target, version, fields, ctx);
    let max = ctx.limits@.max_authority_bytes;
    assert(seq![42u8][0] == 42);
    if target == seq![42u8] {
        assert(target == seq!['*' as u8]);
    }
    if none_named(fields, ascii("host"@)) {
        law_none_named(fields, KnownHeader::Host);
    }
    assert forall|h: Seq<u8>| #[trigger] one_named(fields, ascii("host"@), h) implies authority_part(
        got,
    ) == parse_authority(h, ctx.scheme, max) by {
        law_one_named(fields, KnownHeader::Host, h);
    }
}

/// A second `Host` refuses a request, whatever the two say.
pub proof fn law_two_hosts_are_refused(
    method: Method,
    target: Seq<u8>,
    version: WireVersion,
    fields: Seq<Field>,
    ctx: H1Context,
    i: int,
    j: int,
)
    requires
        0 <= i < j < fields.len(),
        fields[i].name == ascii("host"@),
        fields[j].name == ascii("host"@),
    ensures
        request_of(method, target, version, fields, ctx) is Err,
        request_of(method, target, version, fields, ctx)->Err_0 == RejectReason::HostDuplicate,
{
    law_two_named(fields, KnownHeader::Host, i, j);
}

/// Where a `Host` and an `:authority` meet, they name the same authority or the
/// request is refused as a mismatch; one that is there alone names it; and on
/// HTTP/1 there is no `:authority`.
pub proof fn law_authorities_meet(
    host: Seq<u8>,
    pseudo: Seq<u8>,
    scheme: Scheme,
    version: WireVersion,
    max_bytes: u32,
)
    ensures
        ({
            let mux = version is H2 || version is H3;
            let h = parse_authority(host, scheme, max_bytes);
            let p = parse_authority(pseudo, scheme, max_bytes);
            &&& reconciled(Some(host), None, scheme, version, max_bytes) == h
            &&& mux ==> reconciled(None, Some(pseudo), scheme, version, max_bytes) == p
            &&& mux ==> reconciled(None, None, scheme, version, max_bytes) == Err::<
                AuthorityView,
                RejectReason,
            >(RejectReason::PseudoHeaderMissing)
            &&& !mux ==> reconciled(None, None, scheme, version, max_bytes) == Err::<
                AuthorityView,
                RejectReason,
            >(RejectReason::HostMissing)
            &&& !mux ==> reconciled(Some(host), Some(pseudo), scheme, version, max_bytes) == Err::<
                AuthorityView,
                RejectReason,
            >(RejectReason::AuthorityMismatch)
            &&& !mux ==> reconciled(None, Some(pseudo), scheme, version, max_bytes) == Err::<
                AuthorityView,
                RejectReason,
            >(RejectReason::AuthorityMismatch)
            &&& mux && h is Ok && p is Ok ==> reconciled(
                Some(host),
                Some(pseudo),
                scheme,
                version,
                max_bytes,
            ) == if h->Ok_0 == p->Ok_0 {
                h
            } else {
                Err(RejectReason::AuthorityMismatch)
            }
            &&& mux && (h is Err || p is Err) ==> reconciled(
                Some(host),
                Some(pseudo),
                scheme,
                version,
                max_bytes,
            ) == if h is Err {
                h
            } else {
                p
            }
        }),
{
}

} // verus!
