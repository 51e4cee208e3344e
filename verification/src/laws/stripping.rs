//! Which fields are not forwarded, by their names.
use crate::field::trim;
use crate::laws::names::{
    client_name, connection_name, law_field_kinds, law_known_names,
};
use crate::section::Field;
use crate::strip::{
    kept_on_ingress, kept_on_response, nominated, options_name, stripped_ingress, stripped_response,
};
use crate::text::{ascii, find, lemma_ascii, lemma_find, lower_all, split, split_from};
use vstd::prelude::*;

verus! {

/// Whether a list with commas has this item.
pub open spec fn lists(value: Seq<u8>, item: Seq<u8>) -> bool {
    exists|a: Seq<u8>, b: Seq<u8>| #[trigger] item_between(value, a, item, b)
}

/// An item of a list, with what stands before and behind it.
pub open spec fn item_between(value: Seq<u8>, a: Seq<u8>, item: Seq<u8>, b: Seq<u8>) -> bool {
    &&& value == a + item + b
    &&& !item.contains(44u8)
    &&& a.len() == 0 || a.last() == 44
    &&& b.len() == 0 || b[0] == 44
}

/// The parts that a text is split into at commas are the items of the list.
pub proof fn law_split_is_a_list(value: Seq<u8>, item: Seq<u8>)
    ensures
        split(value, 44u8).contains(item) <==> lists(value, item),
{
    lemma_split_from(value, item, 0);
    let none = Seq::<u8>::empty();
    if split(value, 44u8).contains(item) {
        let (a, b) = choose|a: Seq<u8>, b: Seq<u8>| #[trigger]
            item_between(value.skip(0), a, item, b);
        assert(value.skip(0) =~= value);
        assert(item_between(value, a, item, b));
    }
    if lists(value, item) {
        let (a, b) = choose|a: Seq<u8>, b: Seq<u8>| #[trigger] item_between(value, a, item, b);
        assert(value.skip(0) =~= value);
        assert(item_between(value.skip(0), a, item, b));
    }
}

proof fn lemma_split_from(s: Seq<u8>, item: Seq<u8>, from: int)
    requires
        0 <= from <= s.len(),
    ensures
        split_from(s, 44u8, from).contains(item) <==> lists(s.skip(from), item),
    decreases s.len() - from,
{
    let at = find(s, 44u8, from);
    lemma_find(s, 44u8, from);
    let t = s.skip(from);
    let parts = split_from(s, 44u8, from);
    let none = Seq::<u8>::empty();
    if at < s.len() {
        lemma_split_from(s, item, at + 1);
        let more = split_from(s, 44u8, at + 1);
        let first = s.subrange(from, at);
        let rest = s.skip(at + 1);
        assert(t =~= first + seq![44u8] + rest);
        assert(parts[0] == first);
        if parts.contains(item) {
            let i = choose|i: int| 0 <= i < parts.len() && parts[i] == item;
            if i == 0 {
                assert(t =~= none + item + (seq![44u8] + rest));
                assert(!item.contains(44u8));
                assert(item_between(t, none, item, seq![44u8] + rest));
            } else {
                assert(more[i - 1] == item);
                let (a, b) = choose|a: Seq<u8>, b: Seq<u8>| #[trigger]
                    item_between(rest, a, item, b);
                let a2 = first + seq![44u8] + a;
                assert(t =~= a2 + item + b);
                assert(a2.last() == 44);
                assert(item_between(t, a2, item, b));
            }
        }
        if lists(t, item) {
            let (a, b) = choose|a: Seq<u8>, b: Seq<u8>| #[trigger] item_between(t, a, item, b);
            if a.len() == 0 {
                lemma_first_item(t, item, b, first, rest);
                assert(parts[0] == item);
            } else {
                assert(t[a.len() - 1] == 44);
                assert(a.len() - 1 >= first.len()) by {
                    if a.len() - 1 < first.len() {
                        assert(t[a.len() - 1] == first[a.len() - 1]);
                        assert(s[from + a.len() - 1] == 44);
                    }
                }
                let a2 = a.skip(first.len() as int + 1);
                assert(rest =~= a2 + item + b) by {
                    assert(t.skip(first.len() as int + 1) =~= rest);
                    assert(t =~= a + item + b);
                }
                if a2.len() > 0 {
                    assert(a2.last() == a.last());
                }
                assert(item_between(rest, a2, item, b));
                let i = choose|i: int| 0 <= i < more.len() && more[i] == item;
                assert(parts[i + 1] == item);
            }
        }
    } else {
        assert(s.subrange(from, s.len() as int) =~= t);
        assert(parts =~= seq![t]);
        assert(parts[0] == t);
        assert(!t.contains(44u8)) by {
            if t.contains(44u8) {
                let i = choose|i: int| 0 <= i < t.len() && t[i] == 44u8;
                assert(s[from + i] == 44);
            }
        }
        if parts.contains(item) {
            assert(t =~= none + item + none);
            assert(item_between(t, none, item, none));
        }
        if lists(t, item) {
            let (a, b) = choose|a: Seq<u8>, b: Seq<u8>| #[trigger] item_between(t, a, item, b);
            if a.len() > 0 {
                assert(t[a.len() - 1] == 44);
            }
            if b.len() > 0 {
                assert(t[(a.len() + item.len()) as int] == 44);
            }
            assert(t =~= item);
        }
    }
}

proof fn lemma_first_item(t: Seq<u8>, item: Seq<u8>, b: Seq<u8>, first: Seq<u8>, rest: Seq<u8>)
    requires
        item_between(t, Seq::empty(), item, b),
        t == first + seq![44u8] + rest,
        !first.contains(44u8),
    ensures
        item == first,
{
    assert(t =~= item + b);
    assert(t[first.len() as int] == 44);
    if item.len() > first.len() {
        assert(item[first.len() as int] == t[first.len() as int]);
        assert(item.contains(item[first.len() as int]));
    }
    if item.len() < first.len() {
        assert(b.len() > 0);
        assert(t[item.len() as int] == 44);
        assert(first[item.len() as int] == t[item.len() as int]);
        assert(first.contains(first[item.len() as int]));
    }
    assert(item.len() == first.len());
    assert forall|i: int| 0 <= i < item.len() implies item[i] == first[i] by {
        assert(item[i] == t[i]);
        assert(first[i] == t[i]);
    }
    assert(item =~= first);
}

/// Whether a `connection` field names this field, in any case and with blanks
/// around it.
pub open spec fn named_by_connection(fields: Seq<Field>, name: Seq<u8>) -> bool {
    exists|i: int, item: Seq<u8>|
        0 <= i < fields.len() && fields[i].name == ascii("connection"@) && #[trigger] lists(
            fields[i].value,
            item,
        ) && lower_all(trim(item)) == lower_all(name)
}

/// What a `connection` field names is nominated, and nothing else.
pub proof fn law_nominated(fields: Seq<Field>, name: Seq<u8>)
    ensures
        nominated(fields, name) <==> named_by_connection(fields, name),
{
    if nominated(fields, name) {
        let i = choose|i: int|
            0 <= i < fields.len() && (#[trigger] fields[i]).known() is Connection && options_name(
                fields[i].value,
                name,
            );
        let parts = split(fields[i].value, ',' as u8);
        let j = choose|j: int|
            0 <= j < parts.len() && lower_all(trim(#[trigger] parts[j])) == lower_all(name);
        law_known_names(fields[i].name);
        assert(parts.contains(parts[j]));
        law_split_is_a_list(fields[i].value, parts[j]);
        assert(lists(fields[i].value, parts[j]));
    }
    if named_by_connection(fields, name) {
        let (i, item) = choose|i: int, item: Seq<u8>|
            0 <= i < fields.len() && fields[i].name == ascii("connection"@) && #[trigger] lists(
                fields[i].value,
                item,
            ) && lower_all(trim(item)) == lower_all(name);
        law_known_names(fields[i].name);
        law_split_is_a_list(fields[i].value, item);
        let parts = split(fields[i].value, ',' as u8);
        let j = choose|j: int| 0 <= j < parts.len() && parts[j] == item;
        assert(lower_all(trim(parts[j])) == lower_all(name));
        assert(fields[i].known() is Connection);
    }
}

/// Whether a request field goes on: none of the connection, none that claims
/// who the client is, none with a reserved prefix, none that `connection`
/// names, and `te` as `trailers` alone.
pub open spec fn goes_upstream(fields: Seq<Field>, f: Field) -> bool {
    &&& !connection_name(f.name)
    &&& !client_name(f.name)
    &&& !ascii("x-irontraffic-"@).is_prefix_of(f.name)
    &&& !ascii("x-envoy-"@).is_prefix_of(f.name)
    &&& !ascii("x-forwarded-"@).is_prefix_of(f.name)
    &&& !named_by_connection(fields, f.name)
    &&& f.name == ascii("te"@) ==> lower_all(trim(f.value)) == ascii("trailers"@)
}

/// Whether a response field goes on.
pub open spec fn goes_downstream(fields: Seq<Field>, f: Field) -> bool {
    &&& !connection_name(f.name)
    &&& !ascii("x-irontraffic-"@).is_prefix_of(f.name)
    &&& !named_by_connection(fields, f.name)
}

proof fn lemma_goes(fields: Seq<Field>, f: Field)
    ensures
        kept_on_ingress(fields, f) <==> goes_upstream(fields, f),
        kept_on_response(fields, f) <==> goes_downstream(fields, f),
{
    law_field_kinds(f.name);
    law_known_names(f.name);
    law_nominated(fields, f.name);
    reveal_strlit("trailers");
    lemma_ascii("trailers"@);
    assert(lower_all(ascii("trailers"@)) =~= ascii("trailers"@));
}

/// What is kept of a request's fields is every one that goes on, in order, and
/// no other.
pub proof fn law_request_fields_kept(fields: Seq<Field>)
    ensures
        stripped_ingress(fields) == fields.filter(|f: Field| goes_upstream(fields, f)),
{
    let p = |f: Field| kept_on_ingress(fields, f);
    let q = |f: Field| goes_upstream(fields, f);
    assert forall|f: Field| #[trigger] p(f) == q(f) by {
        lemma_goes(fields, f);
    }
    assert(p =~= q);
}

/// What is kept of a response's fields is every one that goes on, in order, and
/// no other.
pub proof fn law_response_fields_kept(fields: Seq<Field>)
    ensures
        stripped_response(fields) == fields.filter(|f: Field| goes_downstream(fields, f)),
{
    let p = |f: Field| kept_on_response(fields, f);
    let q = |f: Field| goes_downstream(fields, f);
    assert forall|f: Field| #[trigger] p(f) == q(f) by {
        lemma_goes(fields, f);
    }
    assert(p =~= q);
}

} // verus!
