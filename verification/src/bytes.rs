//! Fixed-width integers as byte strings, byte-wise comparison and lexicographic order.

use vstd::prelude::*;

verus! {

/// The `width` low-order base-256 digits of `n`, least significant first.
pub open spec fn le_bytes(n: nat, width: nat) -> Seq<u8>
    decreases width,
{
    if width == 0 {
        Seq::empty()
    } else {
        seq![(n % 256) as u8] + le_bytes(n / 256, (width - 1) as nat)
    }
}

/// The number whose base-256 digits, least significant first, are `s`.
pub open spec fn le_value(s: Seq<u8>) -> nat
    decreases s.len(),
{
    if s.len() == 0 {
        0
    } else {
        s[0] as nat + 256 * le_value(s.drop_first())
    }
}

/// The `width` low-order base-256 digits of `n`, most significant first.
pub open spec fn be_bytes(n: nat, width: nat) -> Seq<u8> {
    le_bytes(n, width).reverse()
}

/// `256` to the power `width`: the number of values that `width` bytes can hold.
pub open spec fn byte_range(width: nat) -> nat
    decreases width,
{
    if width == 0 {
        1
    } else {
        256 * byte_range((width - 1) as nat)
    }
}

/// `a` precedes `b` in the order in which byte strings are sorted.
pub open spec fn lex_less(a: Seq<u8>, b: Seq<u8>) -> bool
    decreases a.len(),
{
    if b.len() == 0 {
        false
    } else if a.len() == 0 {
        true
    } else {
        a[0] < b[0] || (a[0] == b[0] && lex_less(a.drop_first(), b.drop_first()))
    }
}

/// `s` begins with `prefix`.
pub open spec fn has_prefix(s: Seq<u8>, prefix: Seq<u8>) -> bool {
    prefix.len() <= s.len() && s.take(prefix.len() as int) == prefix
}

/// The array whose view is `s`, for an `s` of 32 bytes.
pub open spec fn array32(s: Seq<u8>) -> [u8; 32] {
    choose|a: [u8; 32]| a@ == s
}

pub proof fn lemma_array32(a: [u8; 32])
    ensures
        array32(a@) == a,
{
    let b = array32(a@);
    assert(b@ == a@);
    assert forall|i: int| 0 <= i < 32 implies a[i] == b[i] by {
        assert(a@[i] == b@[i]);
    }
    assert(a =~= b);
}

/// Any 32 bytes are the bytes of an array.
pub proof fn lemma_array32_view(s: Seq<u8>)
    requires
        s.len() == 32,
    ensures
        array32(s)@ == s,
{
    lemma_fill(s, 32);
}

/// There is an array with the first `n` bytes of `s`.
proof fn lemma_fill(s: Seq<u8>, n: int)
    requires
        s.len() == 32,
        0 <= n <= 32,
    ensures
        exists|a: [u8; 32]| #[trigger] a@ == s.take(n) + Seq::new((32 - n) as nat, |i: int| 0u8),
        n == 32 ==> exists|a: [u8; 32]| #[trigger] a@ == s,
    decreases n,
{
    if n == 0 {
        let a = vstd::array::spec_array_fill_for_copy_type::<u8, 32>(0u8);
        assert(a@ =~= s.take(0) + Seq::new(32, |i: int| 0u8));
    } else {
        lemma_fill(s, n - 1);
        let b = choose|a: [u8; 32]|
            #[trigger] a@ == s.take(n - 1) + Seq::new((33 - n) as nat, |i: int| 0u8);
        let a = vstd::array::spec_array_update(b, n - 1, s[n - 1]);
        assert(a@ =~= s.take(n) + Seq::new((32 - n) as nat, |i: int| 0u8));
        if n == 32 {
            assert(a@ =~= s);
        }
    }
}

/// Arrays with the same bytes are equal.
pub proof fn lemma_array_view_eq<const N: usize>(a: [u8; N], b: [u8; N])
    requires
        a@ == b@,
    ensures
        a == b,
{
    assert forall|i: int| 0 <= i < N implies a[i] == b[i] by {
        assert(a@[i] == b@[i]);
    }
    assert(a =~= b);
}

pub proof fn lemma_byte_range_positive(width: nat)
    ensures
        byte_range(width) > 0,
    decreases width,
{
    if width > 0 {
        lemma_byte_range_positive((width - 1) as nat);
    }
}

pub proof fn lemma_byte_range_values()
    ensures
        byte_range(2) == 0x1_0000,
        byte_range(4) == 0x1_0000_0000,
        byte_range(8) == 0x1_0000_0000_0000_0000,
{
    reveal_with_fuel(byte_range, 9);
}

pub proof fn lemma_le_bytes_len(n: nat, width: nat)
    ensures
        le_bytes(n, width).len() == width,
    decreases width,
{
    if width > 0 {
        lemma_le_bytes_len(n / 256, (width - 1) as nat);
    }
}

pub proof fn lemma_be_bytes_len(n: nat, width: nat)
    ensures
        be_bytes(n, width).len() == width,
{
    lemma_le_bytes_len(n, width);
}

/// Writing a number that fits and reading it back gives the number.
pub proof fn lemma_le_value_of_bytes(n: nat, width: nat)
    requires
        n < byte_range(width),
    ensures
        le_value(le_bytes(n, width)) == n,
    decreases width,
{
    if width > 0 {
        let rest = le_bytes(n / 256, (width - 1) as nat);
        assert(n / 256 < byte_range((width - 1) as nat)) by (nonlinear_arith)
            requires
                n < 256 * byte_range((width - 1) as nat),
        ;
        lemma_le_value_of_bytes(n / 256, (width - 1) as nat);
        assert(le_bytes(n, width).drop_first() =~= rest);
    }
}

/// Reading a byte string and writing the number back gives the byte string.
pub proof fn lemma_le_bytes_of_value(s: Seq<u8>)
    ensures
        le_bytes(le_value(s), s.len()) == s,
        le_value(s) < byte_range(s.len()),
    decreases s.len(),
{
    if s.len() > 0 {
        let t = s.drop_first();
        lemma_le_bytes_of_value(t);
        let v = le_value(t);
        assert(le_value(s) % 256 == s[0] as nat);
        assert(le_value(s) / 256 == v);
        assert(le_bytes(le_value(s), s.len()) =~= seq![s[0]] + t);
        assert(seq![s[0]] + t =~= s);
    } else {
        assert(le_bytes(le_value(s), s.len()) =~= s);
    }
}

/// Appends `n` as `width` little-endian bytes.
pub fn push_le(out: &mut Vec<u8>, n: u64, width: usize)
    ensures
        final(out)@ == old(out)@ + le_bytes(n as nat, width as nat),
{
    let mut left: u64 = n;
    let mut i: usize = 0;
    assert(out@ + le_bytes(n as nat, width as nat) =~= old(out)@ + le_bytes(n as nat, width as nat));
    while i < width
        invariant
            i <= width,
            out@ + le_bytes(left as nat, (width - i) as nat) == old(out)@ + le_bytes(
                n as nat,
                width as nat,
            ),
        decreases width - i,
    {
        let ghost before = out@;
        let digit: u8 = (left % 256) as u8;
        out.push(digit);
        proof {
            let rest = le_bytes((left / 256) as nat, (width - i - 1) as nat);
            assert(le_bytes(left as nat, (width - i) as nat) == seq![digit] + rest);
            assert(out@ + rest =~= before + (seq![digit] + rest));
        }
        left = left / 256;
        i += 1;
    }
    assert(out@ + le_bytes(left as nat, 0) =~= out@);
}

/// Reads `s`, at most eight bytes, as a little-endian number.
pub fn read_le(s: &[u8]) -> (n: u64)
    requires
        s@.len() <= 8,
    ensures
        n == le_value(s@),
{
    let mut value: u64 = 0;
    let mut i: usize = s.len();
    assert(s@.skip(s@.len() as int) =~= Seq::<u8>::empty());
    while i > 0
        invariant
            i <= s@.len() <= 8,
            value == le_value(s@.skip(i as int)),
        decreases i,
    {
        proof {
            let tail = s@.skip(i - 1);
            assert(tail.drop_first() =~= s@.skip(i as int));
            lemma_le_bytes_of_value(s@.skip(i as int));
            lemma_le_bytes_of_value(tail);
            lemma_byte_range_grows(tail.len(), 8);
            lemma_byte_range_values();
        }
        i -= 1;
        value = value * 256 + s[i] as u64;
    }
    assert(s@.skip(0) =~= s@);
    value
}

pub proof fn lemma_byte_range_grows(small: nat, large: nat)
    requires
        small <= large,
    ensures
        byte_range(small) <= byte_range(large),
    decreases large - small,
{
    if small < large {
        lemma_byte_range_grows(small, (large - 1) as nat);
        lemma_byte_range_positive((large - 1) as nat);
    }
}

/// Whether two byte strings are equal.
pub fn bytes_equal(a: &[u8], b: &[u8]) -> (r: bool)
    ensures
        r == (a@ == b@),
{
    if a.len() != b.len() {
        return false;
    }
    let mut i: usize = 0;
    while i < a.len()
        invariant
            a@.len() == b@.len(),
            i <= a@.len(),
            a@.take(i as int) == b@.take(i as int),
        decreases a@.len() - i,
    {
        if a[i] != b[i] {
            assert(a@[i as int] != b@[i as int]);
            return false;
        }
        proof {
            assert(a@.take(i + 1) =~= a@.take(i as int).push(a@[i as int]));
            assert(b@.take(i + 1) =~= b@.take(i as int).push(b@[i as int]));
        }
        i += 1;
    }
    assert(a@.take(i as int) =~= a@);
    assert(b@.take(i as int) =~= b@);
    true
}

/// Whether two 32-byte values are equal.
pub fn equal32(a: &[u8; 32], b: &[u8; 32]) -> (r: bool)
    ensures
        r == (*a == *b),
{
    let r = bytes_equal(a.as_slice(), b.as_slice());
    proof {
        if r {
            lemma_array_view_eq(*a, *b);
        }
    }
    r
}

/// Whether `s` begins with `prefix`.
pub fn starts_with(s: &[u8], prefix: &[u8]) -> (r: bool)
    ensures
        r == has_prefix(s@, prefix@),
{
    if s.len() < prefix.len() {
        return false;
    }
    let head = vstd::slice::slice_subrange(s, 0, prefix.len());
    assert(head@ =~= s@.take(prefix@.len() as int));
    bytes_equal(head, prefix)
}

/// Whether `a` precedes `b` in lexicographic order.
pub fn precedes(a: &[u8], b: &[u8]) -> (r: bool)
    ensures
        r == lex_less(a@, b@),
{
    let mut i: usize = 0;
    assert(a@.skip(0) =~= a@);
    assert(b@.skip(0) =~= b@);
    while i < a.len() && i < b.len()
        invariant
            i <= a@.len(),
            i <= b@.len(),
            lex_less(a@, b@) == lex_less(a@.skip(i as int), b@.skip(i as int)),
        decreases a@.len() - i,
    {
        proof {
            assert(a@.skip(i as int)[0] == a@[i as int]);
            assert(b@.skip(i as int)[0] == b@[i as int]);
            assert(a@.skip(i as int).drop_first() =~= a@.skip(i + 1));
            assert(b@.skip(i as int).drop_first() =~= b@.skip(i + 1));
        }
        if a[i] < b[i] {
            return true;
        }
        if b[i] < a[i] {
            return false;
        }
        i += 1;
    }
    i < b.len()
}

/// Copies a byte string into an owned buffer.
pub fn copy_bytes(s: &[u8]) -> (out: Vec<u8>)
    ensures
        out@ == s@,
{
    vstd::slice::slice_to_vec(s)
}

/// Appends a byte string to a buffer.
pub fn push_bytes(out: &mut Vec<u8>, s: &[u8])
    ensures
        final(out)@ == old(out)@ + s@,
{
    out.extend_from_slice(s);
    assert(out@ =~= old(out)@ + s@);
}

/// Copies 32 bytes into an array.
pub fn copy32(s: &[u8]) -> (out: [u8; 32])
    requires
        s@.len() == 32,
    ensures
        out@ == s@,
{
    let mut out: [u8; 32] = [0u8; 32];
    let mut i: usize = 0;
    while i < 32
        invariant
            i <= 32,
            s@.len() == 32,
            forall|j: int| 0 <= j < i ==> out@[j] == s@[j],
        decreases 32 - i,
    {
        out[i] = s[i];
        i += 1;
    }
    assert(out@ =~= s@);
    out
}

/// Lexicographic order never puts a byte string before itself.
pub proof fn lemma_lex_irreflexive(a: Seq<u8>)
    ensures
        !lex_less(a, a),
    decreases a.len(),
{
    if a.len() > 0 {
        lemma_lex_irreflexive(a.drop_first());
    }
}

/// Lexicographic order is transitive.
pub proof fn lemma_lex_transitive(a: Seq<u8>, b: Seq<u8>, c: Seq<u8>)
    requires
        lex_less(a, b),
        lex_less(b, c),
    ensures
        lex_less(a, c),
    decreases a.len(),
{
    if a.len() > 0 && a[0] == b[0] && b[0] == c[0] {
        lemma_lex_transitive(a.drop_first(), b.drop_first(), c.drop_first());
    }
}

/// Of two different byte strings one precedes the other.
pub proof fn lemma_lex_total(a: Seq<u8>, b: Seq<u8>)
    ensures
        a == b || lex_less(a, b) || lex_less(b, a),
    decreases a.len(),
{
    if a.len() == 0 {
        if b.len() == 0 {
            assert(a =~= b);
        }
    } else if b.len() > 0 && a[0] == b[0] {
        lemma_lex_total(a.drop_first(), b.drop_first());
        if a.drop_first() == b.drop_first() {
            assert(a =~= seq![a[0]] + a.drop_first());
            assert(b =~= seq![b[0]] + b.drop_first());
        }
    }
}

/// The first byte in which two strings of one length differ decides their order.
pub proof fn lemma_lex_first_difference(a: Seq<u8>, b: Seq<u8>) -> (i: int)
    requires
        lex_less(a, b),
        a.len() == b.len(),
    ensures
        0 <= i < a.len(),
        a[i] < b[i],
        forall|j: int| 0 <= j < i ==> a[j] == b[j],
    decreases a.len(),
{
    if a[0] < b[0] {
        0
    } else {
        let k = lemma_lex_first_difference(a.drop_first(), b.drop_first());
        assert forall|j: int| 0 <= j < k + 1 implies a[j] == b[j] by {
            if j > 0 {
                assert(a.drop_first()[j - 1] == b.drop_first()[j - 1]);
            }
        }
        k + 1
    }
}

} // verus!
