//! Numbers as they are written: decimal and hexadecimal.
use crate::ext::{content, has_room, put_u8};
use crate::text::{hex_value, is_digit, is_hex};
use bytes::BytesMut;
use vstd::prelude::*;

verus! {

/// Whether `s` holds nothing but decimal digits.
pub open spec fn all_digits(s: Seq<u8>) -> bool {
    forall|i: int| 0 <= i < s.len() ==> is_digit(#[trigger] s[i])
}

/// The number that a string of decimal digits writes.
pub open spec fn dec_value(s: Seq<u8>) -> nat
    decreases s.len(),
{
    if s.len() == 0 {
        0
    } else {
        dec_value(s.drop_last()) * 10 + (s.last() - '0' as u8) as nat
    }
}

/// A number in decimal, without leading zeros.
pub open spec fn dec_text(n: nat) -> Seq<u8>
    decreases n,
{
    if n < 10 {
        seq![('0' as u8 + n) as u8]
    } else {
        dec_text(n / 10).push(('0' as u8 + n % 10) as u8)
    }
}

/// The number that a string of hexadecimal digits writes.
pub open spec fn hex_number(s: Seq<u8>) -> nat
    decreases s.len(),
{
    if s.len() == 0 {
        0
    } else {
        hex_number(s.drop_last()) * 16 + hex_value(s.last())
    }
}

/// The lowercase hexadecimal digit for a value below 16.
pub open spec fn hex_digit(n: nat) -> u8 {
    if n < 10 {
        ('0' as u8 + n) as u8
    } else {
        ('a' as u8 + (n - 10)) as u8
    }
}

/// A number in lowercase hexadecimal, without leading zeros.
pub open spec fn hex_text(n: nat) -> Seq<u8>
    decreases n,
{
    if n < 16 {
        seq![hex_digit(n)]
    } else {
        hex_text(n / 16).push(hex_digit(n % 16))
    }
}

/// `10` to the power `k`.
pub open spec fn pow10(k: nat) -> nat
    decreases k,
{
    if k == 0 {
        1
    } else {
        10 * pow10((k - 1) as nat)
    }
}

/// Reading a written number gives the number back.
pub proof fn law_decimal_round_trip(n: nat)
    ensures
        dec_value(dec_text(n)) == n,
        all_digits(dec_text(n)),
        dec_text(n).len() > 0,
    decreases n,
{
    if n < 10 {
        let s = dec_text(n);
        assert(s.drop_last() =~= Seq::<u8>::empty());
        assert(dec_value(s.drop_last()) == 0);
    } else {
        law_decimal_round_trip(n / 10);
        let s = dec_text(n);
        assert(s.drop_last() =~= dec_text(n / 10));
    }
}

/// A number below `10^k` takes at most `k` digits.
pub proof fn lemma_dec_text_len(n: nat, k: nat)
    requires
        k > 0,
        n < pow10(k),
    ensures
        dec_text(n).len() <= k,
    decreases k,
{
    if n >= 10 {
        assert(k > 1) by {
            reveal_with_fuel(pow10, 2);
        }
        lemma_dec_text_len(n / 10, (k - 1) as nat);
    }
}

/// `k` digits write a number below `10^k`.
pub proof fn lemma_dec_value_bound(s: Seq<u8>)
    requires
        all_digits(s),
    ensures
        dec_value(s) < pow10(s.len()),
    decreases s.len(),
{
    if s.len() > 0 {
        assert(all_digits(s.drop_last()));
        lemma_dec_value_bound(s.drop_last());
        assert(is_digit(s[s.len() - 1]));
    }
}

/// The digits read so far bound the number from below.
pub proof fn lemma_dec_value_prefix(s: Seq<u8>, i: int)
    requires
        0 <= i <= s.len(),
    ensures
        dec_value(s.take(i)) <= dec_value(s),
    decreases s.len() - i,
{
    if i < s.len() {
        lemma_dec_value_prefix(s, i + 1);
        assert(s.take(i + 1).drop_last() =~= s.take(i));
    } else {
        assert(s.take(i) =~= s);
    }
}

/// One more digit.
pub proof fn lemma_dec_value_step(s: Seq<u8>, i: int)
    requires
        0 <= i < s.len(),
    ensures
        dec_value(s.take(i + 1)) == dec_value(s.take(i)) * 10 + (s[i] - '0' as u8) as nat,
{
    assert(s.take(i + 1).drop_last() =~= s.take(i));
}

/// The first `count` entries of `d`, last first.
pub open spec fn reversed(d: Seq<u8>, count: int) -> Seq<u8> {
    Seq::new(count as nat, |i: int| d[count - 1 - i])
}

/// The decimal digits of `n`, least significant first, and how many there are.
pub(crate) fn decimal_digits(n: u64) -> (r: ([u8; 20], usize))
    ensures
        1 <= r.1 <= 20,
        reversed(r.0@, r.1 as int) == dec_text(n as nat),
{
    let mut digits: [u8; 20] = [0;20];
    let mut count: usize = 0;
    let mut rest: u64 = n;
    proof {
        reveal_with_fuel(pow10, 21);
        assert((n as nat) < pow10(20));
        lemma_dec_text_len(n as nat, 20);
        assert(dec_text(rest as nat) + reversed(digits@, 0) =~= dec_text(n as nat));
    }
    loop
        invariant_except_break
            count < 20,
            dec_text(n as nat).len() <= 20,
            dec_text(rest as nat) + reversed(digits@, count as int) == dec_text(n as nat),
        ensures
            1 <= count <= 20,
            reversed(digits@, count as int) == dec_text(n as nat),
        decreases rest,
    {
        let d: u8 = (rest % 10) as u8;
        let ghost before = digits@;
        digits[count] = '0' as u8 + d;
        count += 1;
        let next: u64 = rest / 10;
        proof {
            let tail = reversed(digits@, count as int);
            assert(tail =~= seq![('0' as u8 + d) as u8] + reversed(before, count - 1));
            if next > 0 {
                assert(dec_text(next as nat) + tail =~= dec_text(rest as nat) + reversed(
                    before,
                    count - 1,
                ));
                law_decimal_round_trip(next as nat);
            } else {
                assert(tail =~= dec_text(rest as nat) + reversed(before, count - 1));
            }
        }
        rest = next;
        if rest == 0 {
            break;
        }
    }
    (digits, count)
}

/// Appends `n` in decimal and returns the number of digits.
pub(crate) fn put_decimal(out: &mut BytesMut, n: u64) -> (r: usize)
    requires
        has_room(content(*old(out)).len() as int, dec_text(n as nat).len() as int),
    ensures
        content(*final(out)) == content(*old(out)) + dec_text(n as nat),
        r == dec_text(n as nat).len(),
{
    let (digits, count) = decimal_digits(n);
    let ghost text = dec_text(n as nat);
    let ghost before = content(*out);
    let mut i: usize = count;
    proof {
        assert(reversed(digits@, count as int).len() == count);
        assert(before + text.take(0) =~= before);
    }
    while i > 0
        invariant
            i <= count <= 20,
            text == reversed(digits@, count as int),
            text.len() == count,
            has_room(before.len() as int, count as int),
            content(*out) == before + text.take(count - i),
        decreases i,
    {
        i -= 1;
        put_u8(out, digits[i]);
        proof {
            assert(text.take(count - i) =~= text.take(count - i - 1).push(digits@[i as int]));
            assert(content(*out) =~= before + text.take(count - i));
        }
    }
    proof {
        assert(text.take(count as int) =~= text);
    }
    count
}

/// The number of digits of `n` in decimal.
pub(crate) fn decimal_len(n: u64) -> (r: usize)
    ensures
        r == dec_text(n as nat).len(),
        1 <= r <= 20,
{
    let (digits, count) = decimal_digits(n);
    assert(reversed(digits@, count as int).len() == count);
    count
}

/// Reading a number written in hexadecimal gives the number back.
pub proof fn law_hex_round_trip(n: nat)
    ensures
        hex_number(hex_text(n)) == n,
        forall|i: int| 0 <= i < hex_text(n).len() ==> is_hex(#[trigger] hex_text(n)[i]),
        hex_text(n).len() > 0,
    decreases n,
{
    if n < 16 {
        let s = hex_text(n);
        assert(s.drop_last() =~= Seq::<u8>::empty());
        assert(hex_number(s.drop_last()) == 0);
    } else {
        law_hex_round_trip(n / 16);
        let s = hex_text(n);
        assert(s.drop_last() =~= hex_text(n / 16));
    }
}

/// `16` to the power `k`.
pub open spec fn pow16(k: nat) -> nat
    decreases k,
{
    if k == 0 {
        1
    } else {
        16 * pow16((k - 1) as nat)
    }
}

/// A number below `16^k` takes at most `k` hexadecimal digits.
pub proof fn lemma_hex_text_len(n: nat, k: nat)
    requires
        k > 0,
        n < pow16(k),
    ensures
        hex_text(n).len() <= k,
    decreases k,
{
    if n >= 16 {
        assert(k > 1) by {
            reveal_with_fuel(pow16, 2);
        }
        lemma_hex_text_len(n / 16, (k - 1) as nat);
    }
}

/// The lowercase hexadecimal digit for a value below 16.
pub(crate) fn hex_digit_byte(n: u8) -> (r: u8)
    requires
        n < 16,
    ensures
        r == hex_digit(n as nat),
{
    if n < 10 {
        '0' as u8 + n
    } else {
        'a' as u8 + (n - 10)
    }
}

/// The hexadecimal digits of `n`, least significant first, and how many there
/// are: none for 0.
pub(crate) fn hex_digits(n: u64) -> (r: ([u8; 16], usize))
    ensures
        r.1 <= 16,
        n == 0 ==> r.1 == 0,
        n > 0 ==> r.1 >= 1 && reversed(r.0@, r.1 as int) == hex_text(n as nat),
{
    let mut digits: [u8; 16] = [0;16];
    let mut count: usize = 0;
    let mut rest: u64 = n;
    proof {
        reveal_with_fuel(pow16, 17);
        assert((n as nat) < pow16(16));
        lemma_hex_text_len(n as nat, 16);
        assert(hex_text(rest as nat) + reversed(digits@, 0) =~= hex_text(n as nat));
    }
    while rest > 0
        invariant
            count <= 16,
            n == 0 ==> count == 0 && rest == 0,
            hex_text(n as nat).len() <= 16,
            rest > 0 ==> hex_text(rest as nat) + reversed(digits@, count as int) == hex_text(
                n as nat,
            ),
            n > 0 && rest == 0 ==> count >= 1 && reversed(digits@, count as int) == hex_text(
                n as nat,
            ),
        decreases rest,
    {
        let d: u8 = hex_digit_byte((rest % 16) as u8);
        let ghost before = digits@;
        proof {
            law_hex_round_trip(rest as nat);
            assert(reversed(before, count as int).len() == count);
        }
        digits[count] = d;
        count += 1;
        let next: u64 = rest / 16;
        proof {
            let tail = reversed(digits@, count as int);
            assert(tail =~= seq![d] + reversed(before, count - 1));
            if next > 0 {
                assert(hex_text(next as nat) + tail =~= hex_text(rest as nat) + reversed(
                    before,
                    count - 1,
                ));
            } else {
                assert(tail =~= hex_text(rest as nat) + reversed(before, count - 1));
            }
        }
        rest = next;
    }
    (digits, count)
}

/// Appends `n` in lowercase hexadecimal and returns the number of digits.
pub(crate) fn put_hex(out: &mut BytesMut, n: u64) -> (r: usize)
    requires
        has_room(content(*old(out)).len() as int, hex_text(n as nat).len() as int),
    ensures
        content(*final(out)) == content(*old(out)) + hex_text(n as nat),
        r == hex_text(n as nat).len(),
        1 <= r <= 16,
{
    if n == 0 {
        put_u8(out, '0' as u8);
        assert(hex_text(0) =~= seq!['0' as u8]);
        assert(content(*out) =~= content(*old(out)) + hex_text(0));
        return 1;
    }
    let (digits, count) = hex_digits(n);
    let ghost text = hex_text(n as nat);
    let ghost before = content(*out);
    let mut i: usize = count;
    proof {
        assert(reversed(digits@, count as int).len() == count);
        assert(before + text.take(0) =~= before);
    }
    while i > 0
        invariant
            i <= count <= 16,
            text == reversed(digits@, count as int),
            text.len() == count,
            has_room(before.len() as int, count as int),
            content(*out) == before + text.take(count - i),
        decreases i,
    {
        i -= 1;
        put_u8(out, digits[i]);
        proof {
            assert(text.take(count - i) =~= text.take(count - i - 1).push(digits@[i as int]));
            assert(content(*out) =~= before + text.take(count - i));
        }
    }
    proof {
        assert(text.take(count as int) =~= text);
    }
    count
}

/// The number of digits of `n` in hexadecimal.
pub(crate) fn hex_len(n: u64) -> (r: usize)
    ensures
        r == hex_text(n as nat).len(),
        1 <= r <= 16,
{
    if n == 0 {
        assert(hex_text(0).len() == 1);
        return 1;
    }
    let (digits, count) = hex_digits(n);
    assert(reversed(digits@, count as int).len() == count);
    count
}

} // verus!
