//! Positions in the tree and the bits of a path.

use vstd::prelude::*;

use crate::bytes::{lemma_array_view_eq, lemma_lex_first_difference, lex_less};

verus! {

/// Number of bits in a path, and so the greatest level of a position.
pub const DEPTH: usize = 256;

/// Bit `i` of `path`, counted from the most significant bit of the first byte.
pub open spec fn path_bit(path: [u8; 32], i: int) -> bool {
    byte_bit(path@[i / 8], i % 8)
}

/// Bit `i` of a byte, counted from the most significant.
pub open spec fn byte_bit(b: u8, i: int) -> bool {
    if i == 0 {
        b & 0x80 != 0
    } else if i == 1 {
        b & 0x40 != 0
    } else if i == 2 {
        b & 0x20 != 0
    } else if i == 3 {
        b & 0x10 != 0
    } else if i == 4 {
        b & 0x08 != 0
    } else if i == 5 {
        b & 0x04 != 0
    } else if i == 6 {
        b & 0x02 != 0
    } else {
        b & 0x01 != 0
    }
}

/// The first `n` bits of two paths agree.
pub open spec fn shares_bits(a: [u8; 32], b: [u8; 32], n: int) -> bool {
    forall|i: int| 0 <= i < n ==> path_bit(a, i) == path_bit(b, i)
}

/// A position in the tree: the subtree of all paths that begin with the first `level` bits of
/// `path`.
#[derive(Clone, Copy, Debug)]
pub struct Key {
    pub path: [u8; 32],
    pub level: u16,
}

/// The mask that selects bit `i` of a byte, counted from the most significant.
pub open spec fn bit_mask(i: int) -> u8 {
    if i == 0 {
        0x80
    } else if i == 1 {
        0x40
    } else if i == 2 {
        0x20
    } else if i == 3 {
        0x10
    } else if i == 4 {
        0x08
    } else if i == 5 {
        0x04
    } else if i == 6 {
        0x02
    } else {
        0x01
    }
}

/// `path` with bit `i` set.
pub open spec fn with_bit_set(path: Seq<u8>, i: int) -> Seq<u8> {
    path.update(i / 8, path[i / 8] | bit_mask(i % 8))
}

impl Key {
    /// The position of the root.
    pub open spec fn root_spec() -> Key {
        Key { path: crate::bytes::array32(Seq::new(32, |i: int| 0u8)), level: 0 }
    }

    /// The position of the root.
    pub fn root() -> (k: Key)
        ensures
            k == Key::root_spec(),
            k.level == 0,
    {
        let path: [u8; 32] = [0u8; 32];
        proof {
            assert(path@ =~= Seq::new(32, |i: int| 0u8));
            crate::bytes::lemma_array32(path);
        }
        Key { path, level: 0 }
    }

    /// The child whose paths have a zero bit at this position's level.
    pub open spec fn left_child_spec(self) -> Key {
        Key { path: self.path, level: (self.level + 1) as u16 }
    }

    /// The child whose paths have a one bit at this position's level.
    pub open spec fn right_child_spec(self) -> Key {
        Key {
            path: crate::bytes::array32(with_bit_set(self.path@, self.level as int)),
            level: (self.level + 1) as u16,
        }
    }

    /// The child whose paths have a zero bit at this position's level.
    pub fn left_child(&self) -> (k: Key)
        requires
            self.level < DEPTH,
        ensures
            k == self.left_child_spec(),
    {
        Key { path: self.path, level: self.level + 1 }
    }

    /// The child whose paths have a one bit at this position's level.
    pub fn right_child(&self) -> (k: Key)
        requires
            self.level < DEPTH,
        ensures
            k == self.right_child_spec(),
    {
        let mut path: [u8; 32] = self.path;
        let at: usize = self.level as usize / 8;
        let mask: u8 = mask_for(self.level as usize % 8);
        path[at] = path[at] | mask;
        proof {
            assert(path@ =~= with_bit_set(self.path@, self.level as int));
            crate::bytes::lemma_array32(path);
        }
        Key { path, level: self.level + 1 }
    }

    /// The bit at this position's level is clear, as is every later bit of the positions that
    /// are reached from the root.
    pub open spec fn bit_clear(self) -> bool {
        forall|i: int| self.level <= i < 256 ==> !path_bit(self.path, i)
    }

    /// `path` lies under this position.
    pub open spec fn covers(self, path: [u8; 32]) -> bool {
        shares_bits(path, self.path, self.level as int)
    }
}

fn mask_for(i: usize) -> (m: u8)
    requires
        i < 8,
    ensures
        m == bit_mask(i as int),
{
    if i == 0 {
        0x80
    } else if i == 1 {
        0x40
    } else if i == 2 {
        0x20
    } else if i == 3 {
        0x10
    } else if i == 4 {
        0x08
    } else if i == 5 {
        0x04
    } else if i == 6 {
        0x02
    } else {
        0x01
    }
}

/// Reads bit `i` of `path`.
pub fn get_bit(path: &[u8; 32], i: usize) -> (r: bool)
    requires
        i < DEPTH,
    ensures
        r == path_bit(*path, i as int),
{
    path[i / 8] & mask_for(i % 8) != 0
}

/// Whether `path` lies under `key`, that is, begins with its first `level` bits.
pub fn under(key: &Key, path: &[u8; 32]) -> (r: bool)
    requires
        key.level <= DEPTH,
    ensures
        r == key.covers(*path),
{
    let n: usize = key.level as usize;
    let mut i: usize = 0;
    while i < n
        invariant
            n == key.level,
            n <= DEPTH,
            i <= n,
            shares_bits(*path, key.path, i as int),
        decreases n - i,
    {
        if get_bit(path, i) != get_bit(&key.path, i) {
            assert(path_bit(*path, i as int) != path_bit(key.path, i as int));
            return false;
        }
        i += 1;
    }
    true
}

proof fn lemma_mask_bits(b: u8, i: int, j: int)
    requires
        0 <= i < 8,
        0 <= j < 8,
    ensures
        byte_bit(b | bit_mask(i), j) == (i == j || byte_bit(b, j)),
{
    let m = bit_mask(i);
    let k = bit_mask(j);
    assert(byte_bit(b, j) == (b & k != 0));
    assert(byte_bit(b | m, j) == ((b | m) & k != 0));
    assert((b | m) & k == (b & k) | (m & k)) by (bit_vector);
    assert(m & k == (if i == j { k } else { 0u8 })) by {
        assert(0x80u8 & 0x80u8 == 0x80u8 && 0x40u8 & 0x40u8 == 0x40u8 && 0x20u8 & 0x20u8 == 0x20u8
            && 0x10u8 & 0x10u8 == 0x10u8 && 0x08u8 & 0x08u8 == 0x08u8 && 0x04u8 & 0x04u8 == 0x04u8
            && 0x02u8 & 0x02u8 == 0x02u8 && 0x01u8 & 0x01u8 == 0x01u8) by (bit_vector);
        assert(forall|x: u8, y: u8|
            #![trigger x & y]
            (x == 0x80 || x == 0x40 || x == 0x20 || x == 0x10 || x == 0x08 || x == 0x04 || x == 0x02
                || x == 0x01) && (y == 0x80 || y == 0x40 || y == 0x20 || y == 0x10 || y == 0x08 || y
                == 0x04 || y == 0x02 || y == 0x01) && x != y ==> x & y == 0) by (bit_vector);
    }
    let r = b & k;
    assert(r | k != 0) by (bit_vector)
        requires
            k == 0x80 || k == 0x40 || k == 0x20 || k == 0x10 || k == 0x08 || k == 0x04 || k == 0x02
                || k == 0x01,
    ;
    assert(r | 0u8 == r) by (bit_vector);
}

/// Setting bit `at` leaves every other bit as it was.
pub proof fn lemma_right_child_bits(key: Key, i: int)
    requires
        key.level < 256,
        0 <= i < 256,
    ensures
        path_bit(key.right_child_spec().path, i) == (i == key.level || path_bit(key.path, i)),
{
    let at = key.level as int;
    let s = with_bit_set(key.path@, at);
    lemma_set_bytes_are_array(key.path, at);
    let p = key.right_child_spec().path;
    assert(p@ == s);
    if i / 8 == at / 8 {
        assert(p@[i / 8] == key.path@[at / 8] | bit_mask(at % 8));
        lemma_mask_bits(key.path@[at / 8], at % 8, i % 8);
        assert((i % 8 == at % 8) == (i == at));
    } else {
        assert(p@[i / 8] == key.path@[i / 8]);
    }
}

proof fn lemma_set_bytes_are_array(path: [u8; 32], at: int)
    requires
        0 <= at < 256,
    ensures
        crate::bytes::array32(with_bit_set(path@, at))@ == with_bit_set(path@, at),
{
    let s = with_bit_set(path@, at);
    let b: u8 = path@[at / 8] | bit_mask(at % 8);
    let q = vstd::array::spec_array_update(path, at / 8, b);
    assert(q@ == s);
    crate::bytes::lemma_array32(q);
}

/// A child covers exactly the paths that its parent covers and whose bit at the parent's level is
/// the child's.
pub proof fn lemma_children_cover(key: Key, path: [u8; 32])
    requires
        key.level < 256,
        !path_bit(key.path, key.level as int),
    ensures
        key.left_child_spec().covers(path) == (key.covers(path) && !path_bit(
            path,
            key.level as int,
        )),
        key.right_child_spec().covers(path) == (key.covers(path) && path_bit(
            path,
            key.level as int,
        )),
{
    let n = key.level as int;
    let l = key.left_child_spec();
    let r = key.right_child_spec();
    lemma_right_child_bits(key, n);
    assert forall|i: int| 0 <= i < n implies path_bit(r.path, i) == path_bit(key.path, i) by {
        lemma_right_child_bits(key, i);
    }
    if l.covers(path) {
        assert(path_bit(path, n) == path_bit(l.path, n));
    }
    if r.covers(path) {
        assert(path_bit(path, n) == path_bit(r.path, n));
        assert forall|i: int| 0 <= i < n implies path_bit(path, i) == path_bit(key.path, i) by {
            assert(path_bit(path, i) == path_bit(r.path, i));
        }
    }
    if key.covers(path) && path_bit(path, n) {
        assert forall|i: int| 0 <= i < n + 1 implies path_bit(path, i) == path_bit(r.path, i) by {
            if i < n {
                assert(path_bit(path, i) == path_bit(key.path, i));
            }
        }
    }
}

/// The later bits of a child's path are clear where its parent's are.
pub proof fn lemma_children_clear(key: Key)
    requires
        key.level < 256,
        key.bit_clear(),
    ensures
        key.left_child_spec().bit_clear(),
        key.right_child_spec().bit_clear(),
{
    let r = key.right_child_spec();
    assert forall|i: int| r.level <= i < 256 implies !path_bit(r.path, i) by {
        lemma_right_child_bits(key, i);
        assert(!path_bit(key.path, i));
    }
}

pub proof fn lemma_root_clear()
    ensures
        Key::root_spec().bit_clear(),
{
    let z = Seq::new(32, |i: int| 0u8);
    let a = vstd::array::spec_array_fill_for_copy_type::<u8, 32>(0u8);
    assert(a@ =~= z);
    crate::bytes::lemma_array32(a);
    assert(0u8 & 0x80 == 0 && 0u8 & 0x40 == 0 && 0u8 & 0x20 == 0 && 0u8 & 0x10 == 0 && 0u8 & 0x08
        == 0 && 0u8 & 0x04 == 0 && 0u8 & 0x02 == 0 && 0u8 & 0x01 == 0) by (bit_vector);
    assert forall|i: int| 0 <= i < 256 implies !path_bit(Key::root_spec().path, i) by {
        assert(Key::root_spec().path@[i / 8] == 0);
    }
}

/// Bytes are ordered by the first bit in which they differ.
proof fn lemma_byte_order(x: u8, y: u8, r: int)
    requires
        x < y,
        0 <= r < 8,
        forall|j: int| 0 <= j < r ==> byte_bit(x, j) == byte_bit(y, j),
    ensures
        !(byte_bit(x, r) && !byte_bit(y, r)),
{
    assert(r > 0 ==> byte_bit(x, 0) == byte_bit(y, 0));
    assert(r > 1 ==> byte_bit(x, 1) == byte_bit(y, 1));
    assert(r > 2 ==> byte_bit(x, 2) == byte_bit(y, 2));
    assert(r > 3 ==> byte_bit(x, 3) == byte_bit(y, 3));
    assert(r > 4 ==> byte_bit(x, 4) == byte_bit(y, 4));
    assert(r > 5 ==> byte_bit(x, 5) == byte_bit(y, 5));
    assert(r > 6 ==> byte_bit(x, 6) == byte_bit(y, 6));
    let q = r as u8;
    assert(!((q == 0 && x & 0x80 != 0 && y & 0x80 == 0) || (q == 1 && x & 0x40 != 0 && y & 0x40
        == 0) || (q == 2 && x & 0x20 != 0 && y & 0x20 == 0) || (q == 3 && x & 0x10 != 0 && y & 0x10
        == 0) || (q == 4 && x & 0x08 != 0 && y & 0x08 == 0) || (q == 5 && x & 0x04 != 0 && y & 0x04
        == 0) || (q == 6 && x & 0x02 != 0 && y & 0x02 == 0) || (q == 7 && x & 0x01 != 0 && y & 0x01
        == 0))) by (bit_vector)
        requires
            x < y,
            q < 8,
            q > 0 ==> ((x & 0x80 != 0) == (y & 0x80 != 0)),
            q > 1 ==> ((x & 0x40 != 0) == (y & 0x40 != 0)),
            q > 2 ==> ((x & 0x20 != 0) == (y & 0x20 != 0)),
            q > 3 ==> ((x & 0x10 != 0) == (y & 0x10 != 0)),
            q > 4 ==> ((x & 0x08 != 0) == (y & 0x08 != 0)),
            q > 5 ==> ((x & 0x04 != 0) == (y & 0x04 != 0)),
            q > 6 ==> ((x & 0x02 != 0) == (y & 0x02 != 0)),
    ;
}

/// Bytes with the same bits are equal.
proof fn lemma_byte_ext(x: u8, y: u8)
    requires
        forall|j: int| 0 <= j < 8 ==> byte_bit(x, j) == byte_bit(y, j),
    ensures
        x == y,
{
    assert(byte_bit(x, 0) == byte_bit(y, 0));
    assert(byte_bit(x, 1) == byte_bit(y, 1));
    assert(byte_bit(x, 2) == byte_bit(y, 2));
    assert(byte_bit(x, 3) == byte_bit(y, 3));
    assert(byte_bit(x, 4) == byte_bit(y, 4));
    assert(byte_bit(x, 5) == byte_bit(y, 5));
    assert(byte_bit(x, 6) == byte_bit(y, 6));
    assert(byte_bit(x, 7) == byte_bit(y, 7));
    assert(x == y) by (bit_vector)
        requires
            (x & 0x80 != 0) == (y & 0x80 != 0),
            (x & 0x40 != 0) == (y & 0x40 != 0),
            (x & 0x20 != 0) == (y & 0x20 != 0),
            (x & 0x10 != 0) == (y & 0x10 != 0),
            (x & 0x08 != 0) == (y & 0x08 != 0),
            (x & 0x04 != 0) == (y & 0x04 != 0),
            (x & 0x02 != 0) == (y & 0x02 != 0),
            (x & 0x01 != 0) == (y & 0x01 != 0),
    ;
}

/// Of two paths in ascending order that share their first `n` bits, the lower one does not have
/// the one bit at `n` where the higher one has the zero bit.
pub proof fn lemma_order_by_bit(a: [u8; 32], b: [u8; 32], n: int)
    requires
        lex_less(a@, b@),
        0 <= n < 256,
        shares_bits(a, b, n),
    ensures
        !(path_bit(a, n) && !path_bit(b, n)),
{
    let k = lemma_lex_first_difference(a@, b@);
    if n / 8 < k {
        assert(a@[n / 8] == b@[n / 8]);
    } else if n / 8 == k {
        assert forall|j: int| 0 <= j < n % 8 implies byte_bit(a@[k], j) == byte_bit(b@[k], j) by {
            assert(path_bit(a, k * 8 + j) == path_bit(b, k * 8 + j));
        }
        lemma_byte_order(a@[k], b@[k], n % 8);
    } else {
        assert forall|j: int| 0 <= j < 8 implies byte_bit(a@[k], j) == byte_bit(b@[k], j) by {
            assert(path_bit(a, k * 8 + j) == path_bit(b, k * 8 + j));
        }
        lemma_byte_ext(a@[k], b@[k]);
    }
}

/// Paths that share all their bits are equal.
pub proof fn lemma_bits_determine_path(a: [u8; 32], b: [u8; 32])
    requires
        shares_bits(a, b, 256),
    ensures
        a == b,
{
    assert forall|k: int| 0 <= k < 32 implies a@[k] == b@[k] by {
        assert forall|j: int| 0 <= j < 8 implies byte_bit(a@[k], j) == byte_bit(b@[k], j) by {
            assert(path_bit(a, k * 8 + j) == path_bit(b, k * 8 + j));
        }
        lemma_byte_ext(a@[k], b@[k]);
    }
    assert(a@ =~= b@);
    lemma_array_view_eq(a, b);
}

} // verus!
