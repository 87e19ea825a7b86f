//! Numbers, order, text and hashes.

use vstd::arithmetic::div_mod::lemma_div_denominator;
use vstd::arithmetic::power::{lemma_pow_positive, pow};
use vstd::prelude::*;

use crate::bytes::{
    array32, be_bytes, has_prefix, le_bytes, le_value, lemma_array32, lemma_le_bytes_len, lex_less,
};
use crate::hashing::{sha256_digest, Hasher, Sha256};
use crate::text::{decimal, hex};

verus! {

/// Byte `i` of a number, counted from the least significant one, is its digit to base 256 at that
/// place; most significant first is the same the other way round.
pub proof fn lemma_bytes_are_digits(n: nat, width: nat, i: nat)
    ensures
        le_bytes(n, width).len() == width,
        be_bytes(n, width).len() == width,
        i < width ==> le_bytes(n, width)[i as int] == (n as int / pow(256, i)) % 256,
        i < width ==> be_bytes(n, width)[width - 1 - i] == (n as int / pow(256, i)) % 256,
    decreases i,
{
    lemma_le_bytes_len(n, width);
    if i >= width {
    } else if i == 0 {
        assert(pow(256, 0) == 1) by {
            reveal(pow);
        }
        assert(n as int / 1 == n);
    } else {
        lemma_bytes_are_digits(n / 256, (width - 1) as nat, (i - 1) as nat);
        let p = pow(256, (i - 1) as nat);
        assert(pow(256, i) == 256 * p) by {
            reveal(pow);
        }
        lemma_pow_positive(256, (i - 1) as nat);
        lemma_div_denominator(n as int, 256, p);
        assert(le_bytes(n, width)[i as int] == le_bytes(n / 256, (width - 1) as nat)[i - 1]);
    }
}

/// The number that bytes stand for, least significant first, counts each byte by its place.
pub proof fn lemma_value_counts_places(s: Seq<u8>)
    ensures
        s.len() == 0 ==> le_value(s) == 0,
        s.len() > 0 ==> le_value(s) == s[0] + 256 * le_value(s.skip(1)),
{
    if s.len() > 0 {
        assert(s.skip(1) =~= s.drop_first());
    }
}

/// `a` stands before `b`: at the first place in which they differ, `a` has the smaller byte or is
/// at its end.
pub open spec fn stands_before(a: Seq<u8>, b: Seq<u8>) -> bool {
    exists|k: int|
        {
            &&& 0 <= k <= a.len()
            &&& k < b.len()
            &&& a.take(k) == #[trigger] b.take(k)
            &&& k == a.len() || a[k] < b[k]
        }
}

/// Byte strings are ordered by the first place in which they differ.
pub proof fn lemma_order_is_by_first_difference(a: Seq<u8>, b: Seq<u8>)
    ensures
        lex_less(a, b) <==> stands_before(a, b),
    decreases a.len(),
{
    if b.len() == 0 {
    } else if a.len() == 0 {
        assert(a.take(0) =~= b.take(0));
    } else {
        let x = a.drop_first();
        let y = b.drop_first();
        lemma_order_is_by_first_difference(x, y);
        if lex_less(a, b) {
            if a[0] < b[0] {
                assert(a.take(0) =~= b.take(0));
            } else {
                let k = choose|k: int|
                    {
                        &&& 0 <= k <= x.len()
                        &&& k < y.len()
                        &&& x.take(k) == #[trigger] y.take(k)
                        &&& k == x.len() || x[k] < y[k]
                    };
                assert(a.take(k + 1) =~= seq![a[0]] + x.take(k));
                assert(b.take(k + 1) =~= seq![b[0]] + y.take(k));
                assert(a.take(k + 1) == b.take(k + 1));
            }
        }
        if stands_before(a, b) {
            let k = choose|k: int|
                {
                    &&& 0 <= k <= a.len()
                    &&& k < b.len()
                    &&& a.take(k) == #[trigger] b.take(k)
                    &&& k == a.len() || a[k] < b[k]
                };
            if k > 0 {
                assert(a.take(k)[0] == b.take(k)[0]);
                assert(x.take(k - 1) =~= a.take(k).drop_first());
                assert(y.take(k - 1) =~= b.take(k).drop_first());
                assert(x.take(k - 1) == y.take(k - 1));
            }
        }
    }
}

/// A string has a prefix where it begins with the prefix's bytes.
pub proof fn lemma_prefix_is_the_first_bytes(s: Seq<u8>, prefix: Seq<u8>)
    ensures
        has_prefix(s, prefix) <==> prefix.len() <= s.len() && forall|i: int|
            0 <= i < prefix.len() ==> s[i] == #[trigger] prefix[i],
{
    if prefix.len() <= s.len() {
        if has_prefix(s, prefix) {
            assert forall|i: int| 0 <= i < prefix.len() implies s[i] == #[trigger] prefix[i] by {
                assert(s.take(prefix.len() as int)[i] == s[i]);
            }
        }
        if forall|i: int| 0 <= i < prefix.len() ==> s[i] == #[trigger] prefix[i] {
            assert(s.take(prefix.len() as int) =~= prefix);
        }
    }
}

/// The digest that the library computes is the SHA-256 digest, of all the bytes and for every
/// input.
pub proof fn lemma_digest_is_sha256(data: Seq<u8>, digest: [u8; 32])
    requires
        digest@ == sha256_digest(data),
    ensures
        Sha256::digest(data) == digest,
        array32(sha256_digest(data)) == digest,
{
    lemma_array32(digest);
}

/// A number in decimal has its digits to base 10, each at its place, and none in front of the
/// first that counts but for zero itself.
pub proof fn lemma_decimal_digits(n: nat, i: nat)
    ensures
        decimal(n).len() > 0,
        i < decimal(n).len() ==> decimal(n)[decimal(n).len() - 1 - i] as int == 48 + (n as int
            / pow(10, i)) % 10,
        n < pow(10, decimal(n).len()),
        decimal(n).len() > 1 ==> n >= pow(10, (decimal(n).len() - 1) as nat),
    decreases n,
{
    reveal(pow);
    if n < 10 {
        assert(pow(10, 0) == 1);
        assert(pow(10, 1) == 10 * pow(10, 0));
        assert(n as int / 1 == n);
    } else {
        let m = n / 10;
        let len = decimal(m).len();
        assert(decimal(n).len() == len + 1);
        if i == 0 {
            lemma_decimal_digits(m, 0);
            assert(pow(10, 0) == 1);
            assert(n as int / 1 == n);
        } else {
            lemma_decimal_digits(m, (i - 1) as nat);
            let p = pow(10, (i - 1) as nat);
            assert(pow(10, i) == 10 * p);
            lemma_pow_positive(10, (i - 1) as nat);
            lemma_div_denominator(n as int, 10, p);
        }
        assert(pow(10, len + 1) == 10 * pow(10, len));
        assert(pow(10, len) == 10 * pow(10, (len - 1) as nat));
        if len == 1 {
            assert(pow(10, 0) == 1);
        }
    }
}

/// Hexadecimal text has two digits for each byte, the high one first, in lower case.
pub proof fn lemma_hex_digits(bytes: Seq<u8>, i: int)
    ensures
        hex(bytes).len() == 2 * bytes.len(),
        0 <= i < bytes.len() ==> ({
            let high = bytes[i] as int / 16;
            let low = bytes[i] as int % 16;
            &&& hex(bytes)[2 * i] as int == if high < 10 {
                48 + high
            } else {
                97 + high - 10
            }
            &&& hex(bytes)[2 * i + 1] as int == if low < 10 {
                48 + low
            } else {
                97 + low - 10
            }
        }),
{
}

} // verus!
