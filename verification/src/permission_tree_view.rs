//! Level-by-level view of the padded permission tree over a list of exits, for withdrawal claims
//! and spend tracking.

use vstd::arithmetic::power2::{
    lemma_pow2_pos, lemma_pow2_strictly_increases, lemma_pow2_unfold, pow2,
};
use vstd::prelude::*;

use crate::permission_tree::{
    branch_hash, empty_place_hash, exit_leaf_hash, is_required_depth, ExitLeaf,
    PermissionTreeAccumulator, StandardSpk,
};

verus! {

/// The level above `level`: one branch for each two neighbours.
pub open spec fn parents(level: Seq<[u8; 32]>) -> Seq<[u8; 32]> {
    Seq::new(level.len() / 2, |i: int| branch_hash(level[2 * i], level[2 * i + 1]))
}

/// The root of the tree over a level.
pub open spec fn tree_root(level: Seq<[u8; 32]>) -> [u8; 32]
    decreases level.len(),
{
    if level.len() <= 1 {
        level[0]
    } else {
        tree_root(parents(level))
    }
}

/// The place beside place `i`.
pub open spec fn sibling_place(i: int) -> int {
    if i % 2 == 0 {
        i + 1
    } else {
        i - 1
    }
}

/// The place above place `i`, `level` levels up.
pub open spec fn place_above(i: int, level: int) -> int
    decreases level,
{
    if level <= 0 {
        i
    } else {
        place_above(i, level - 1) / 2
    }
}

/// The root recomputed bottom-up from a leaf, its siblings and its place.
pub open spec fn folded(leaf: [u8; 32], siblings: Seq<[u8; 32]>, index: int) -> [u8; 32]
    decreases siblings.len(),
{
    if siblings.len() == 0 {
        leaf
    } else if index % 2 == 0 {
        folded(branch_hash(leaf, siblings[0]), siblings.drop_first(), index / 2)
    } else {
        folded(branch_hash(siblings[0], leaf), siblings.drop_first(), index / 2)
    }
}

/// The hashes of a list of exits, followed by as many empty places as fill `width`.
pub open spec fn padded(leaves: Seq<ExitLeaf>, width: nat) -> Seq<[u8; 32]> {
    Seq::new(
        width,
        |i: int|
            if i < leaves.len() {
                exit_leaf_hash(StandardSpk::PubKey(&leaves[i].pub_key), leaves[i].amount)
            } else {
                empty_place_hash()
            },
    )
}

/// The levels of a tree, leaves first.
pub open spec fn level_hashes(levels: Seq<Vec<[u8; 32]>>) -> Seq<Seq<[u8; 32]>> {
    levels.map_values(|level: Vec<[u8; 32]>| level@)
}

/// Each level but the first is made of the parents of the one below it, and the last holds one
/// hash.
pub open spec fn is_tree(levels: Seq<Seq<[u8; 32]>>) -> bool {
    &&& levels.len() > 0
    &&& levels[0].len() == pow2((levels.len() - 1) as nat)
    &&& forall|l: int| 0 <= l < levels.len() - 1 ==> levels[l + 1] == parents(#[trigger] levels[l])
}

/// The siblings on the way from place `index` to the root.
pub open spec fn sibling_hashes(levels: Seq<Seq<[u8; 32]>>, index: int) -> Seq<[u8; 32]> {
    Seq::new(
        (levels.len() - 1) as nat,
        |l: int| levels[l][sibling_place(place_above(index, l))],
    )
}

/// Each level but the last has the sibling of the place above `index`.
pub open spec fn has_siblings(levels: Seq<Seq<[u8; 32]>>, index: int) -> bool {
    forall|l: int|
        0 <= l < levels.len() - 1 ==> sibling_place(place_above(index, l)) < (
        #[trigger] levels[l]).len()
}

/// `levels` is the tree over `leaves`, padded to the least power of two that has room for them.
pub open spec fn is_view_of(levels: Seq<Seq<[u8; 32]>>, leaves: Seq<ExitLeaf>) -> bool {
    &&& is_tree(levels)
    &&& is_required_depth(leaves.len(), (levels.len() - 1) as nat)
    &&& levels[0] == padded(leaves, levels[0].len())
}

/// The padded permission tree over a list of exits.
#[derive(Clone, Debug, PartialEq, Eq)]
pub struct PermissionTreeView {
    /// The levels, from the leaves to the root.
    pub levels: Vec<Vec<[u8; 32]>>,
}

/// Makes the level above `level`.
fn next_level(level: &Vec<[u8; 32]>) -> (r: Vec<[u8; 32]>)
    ensures
        r@ == parents(level@),
{
    let mut r: Vec<[u8; 32]> = Vec::new();
    let len: usize = level.len();
    let n: usize = len / 2;
    let mut i: usize = 0;
    while i < n
        invariant
            len == level@.len(),
            n == len / 2,
            i <= n,
            r@ == parents(level@).take(i as int),
        decreases n - i,
    {
        r.push(PermissionTreeAccumulator::hash_branch(&level[2 * i], &level[2 * i + 1]));
        assert(r@ =~= parents(level@).take(i + 1));
        i += 1;
    }
    assert(r@ =~= parents(level@));
    r
}

/// Hashes the exits and fills the rest of `width` places.
fn first_level(leaves: &[ExitLeaf], width: usize) -> (r: Vec<[u8; 32]>)
    requires
        leaves@.len() <= width,
    ensures
        r@ == padded(leaves@, width as nat),
{
    let empty = PermissionTreeAccumulator::hash_empty();
    let mut r: Vec<[u8; 32]> = Vec::new();
    let mut i: usize = 0;
    while i < width
        invariant
            i <= width,
            leaves@.len() <= width,
            empty == empty_place_hash(),
            r@ == padded(leaves@, width as nat).take(i as int),
        decreases width - i,
    {
        if i < leaves.len() {
            let spk = leaves[i].to_standard_spk();
            r.push(PermissionTreeAccumulator::hash_leaf(spk, leaves[i].amount));
        } else {
            r.push(empty);
        }
        assert(r@ =~= padded(leaves@, width as nat).take(i + 1));
        i += 1;
    }
    assert(r@ =~= padded(leaves@, width as nat));
    r
}

/// The width of a level `up` levels above the first.
pub proof fn lemma_level_width(levels: Seq<Seq<[u8; 32]>>, depth: nat, up: int)
    requires
        0 <= up < levels.len() <= depth + 1,
        levels[0].len() == pow2(depth),
        forall|l: int| 0 <= l < levels.len() - 1 ==> levels[l + 1] == parents(#[trigger] levels[l]),
    ensures
        levels[up].len() == pow2((depth - up) as nat),
    decreases up,
{
    if up > 0 {
        lemma_level_width(levels, depth, up - 1);
        lemma_pow2_unfold((depth - up + 1) as nat);
        assert(levels[up - 1 + 1] == parents(levels[up - 1]));
    }
}

impl PermissionTreeView {
    /// Builds the tree over `leaves`, padded to the least power of two that has room for them.
    pub fn from_leaves(leaves: &[ExitLeaf]) -> (r: PermissionTreeView)
        requires
            leaves@.len() <= usize::MAX / 2 + 1,
        ensures
            is_view_of(level_hashes(r.levels@), leaves@),
            r.levels@.len() <= usize::BITS,
    {
        let depth = PermissionTreeAccumulator::required_depth(leaves.len());
        let mut width: usize = 1;
        let mut d: usize = 0;
        proof {
            vstd::arithmetic::power2::lemma2_to64();
        }
        while d < depth
            invariant
                d <= depth,
                width == pow2(d as nat),
                pow2(depth as nat) <= usize::MAX,
            decreases depth - d,
        {
            proof {
                lemma_pow2_unfold((d + 1) as nat);
                if d + 1 < depth {
                    lemma_pow2_strictly_increases((d + 1) as nat, depth as nat);
                }
            }
            width = width * 2;
            d += 1;
        }
        let level0 = first_level(leaves, width);
        let mut levels: Vec<Vec<[u8; 32]>> = Vec::new();
        levels.push(level0);
        let mut up: usize = 0;
        while up < depth
            invariant
                up <= depth,
                depth < usize::MAX,
                levels@.len() == up + 1,
                levels@[0]@ == padded(leaves@, pow2(depth as nat)),
                forall|l: int|
                    0 <= l < levels@.len() - 1 ==> levels@[l + 1]@ == parents(
                        (#[trigger] levels@[l])@,
                    ),
            decreases depth - up,
        {
            let next = next_level(&levels[up]);
            levels.push(next);
            up += 1;
        }
        let r = PermissionTreeView { levels };
        proof {
            let h = level_hashes(r.levels@);
            assert forall|l: int| 0 <= l < h.len() - 1 implies h[l + 1] == parents(
                #[trigger] h[l],
            ) by {
                assert(r.levels@[l + 1]@ == parents(r.levels@[l]@));
            }
        }
        r
    }

    /// The root of the tree.
    pub fn root(&self) -> (r: [u8; 32])
        requires
            self.levels@.len() > 0,
            self.levels@.last()@.len() > 0,
        ensures
            r == self.levels@.last()@[0],
    {
        self.levels[self.depth()][0]
    }

    /// The number of levels above the leaves.
    pub fn depth(&self) -> (r: usize)
        ensures
            r == if self.levels@.len() == 0 {
                0
            } else {
                self.levels@.len() - 1
            },
    {
        if self.levels.len() == 0 {
            0
        } else {
            self.levels.len() - 1
        }
    }

    /// The siblings on the way from the leaf at `index` to the root, the lowest first.
    pub fn siblings(&self, index: usize) -> (r: Vec<[u8; 32]>)
        requires
            has_siblings(level_hashes(self.levels@), index as int),
        ensures
            r@ == if self.levels@.len() == 0 {
                Seq::empty()
            } else {
                sibling_hashes(level_hashes(self.levels@), index as int)
            },
    {
        let depth = self.depth();
        let ghost h = level_hashes(self.levels@);
        let mut out: Vec<[u8; 32]> = Vec::new();
        let mut idx: usize = index;
        let mut level: usize = 0;
        while level < depth
            invariant
                level <= depth,
                h == level_hashes(self.levels@),
                has_siblings(h, index as int),
                depth == if h.len() == 0 {
                    0
                } else {
                    h.len() - 1
                },
                idx == place_above(index as int, level as int),
                out@.len() == level,
                forall|l: int|
                    0 <= l < level ==> #[trigger] out@[l] == h[l][sibling_place(
                        place_above(index as int, l),
                    )],
            decreases depth - level,
        {
            assert(idx ^ 1 == if idx % 2 == 0 {
                idx + 1
            } else {
                idx - 1
            }) by (bit_vector);
            assert(h[level as int].len() == self.levels@[level as int]@.len());
            out.push(self.levels[level][idx ^ 1]);
            idx = idx / 2;
            level += 1;
        }
        proof {
            if h.len() > 0 {
                assert(out@ =~= sibling_hashes(h, index as int));
            } else {
                assert(out@ =~= Seq::empty());
            }
        }
        out
    }

    /// The root that the tree would have with `leaf_hash` at `index`.
    pub fn root_with_leaf(&self, index: usize, leaf_hash: [u8; 32]) -> (r: [u8; 32])
        requires
            self.levels@.len() <= usize::BITS + 1,
            has_siblings(level_hashes(self.levels@), index as int),
        ensures
            r == if self.levels@.len() == 0 {
                leaf_hash
            } else {
                folded(
                    leaf_hash,
                    sibling_hashes(level_hashes(self.levels@), index as int),
                    index as int,
                )
            },
    {
        let siblings = self.siblings(index);
        fold_path(leaf_hash, siblings.as_slice(), index)
    }
}

/// Recomputes a root bottom-up from a leaf, its siblings and its place.
pub fn fold_path(leaf_hash: [u8; 32], siblings: &[[u8; 32]], index: usize) -> (r: [u8; 32])
    requires
        siblings@.len() <= usize::BITS,
    ensures
        r == folded(leaf_hash, siblings@, index as int),
{
    let mut current: [u8; 32] = leaf_hash;
    let mut at: usize = index;
    let mut level: usize = 0;
    assert(siblings@.skip(0) =~= siblings@);
    while level < siblings.len()
        invariant
            level <= siblings@.len(),
            folded(current, siblings@.skip(level as int), at as int) == folded(
                leaf_hash,
                siblings@,
                index as int,
            ),
        decreases siblings@.len() - level,
    {
        assert(siblings@.skip(level as int).drop_first() =~= siblings@.skip(level + 1));
        if at % 2 == 0 {
            current = PermissionTreeAccumulator::hash_branch(&current, &siblings[level]);
        } else {
            current = PermissionTreeAccumulator::hash_branch(&siblings[level], &current);
        }
        at = at / 2;
        level += 1;
    }
    current
}

proof fn lemma_place_above_step(i: int, level: int)
    requires
        i >= 0,
        level >= 0,
    ensures
        place_above(i, level + 1) == place_above(i / 2, level),
    decreases level,
{
    if level > 0 {
        lemma_place_above_step(i, level - 1);
    } else {
        assert(place_above(i, 1) == place_above(i, 0) / 2);
    }
}

/// The places above a leaf lie within their levels, and so do their siblings.
pub proof fn lemma_tree_has_siblings(levels: Seq<Seq<[u8; 32]>>, index: int)
    requires
        is_tree(levels),
        0 <= index < levels[0].len(),
    ensures
        has_siblings(levels, index),
{
    let depth = (levels.len() - 1) as nat;
    assert forall|l: int| 0 <= l < levels.len() - 1 implies sibling_place(place_above(index, l)) < (
    #[trigger] levels[l]).len() by {
        lemma_place_above_bound(index, depth, l);
        lemma_level_width(levels, depth, l);
        lemma_pow2_unfold((depth - l) as nat);
    }
}

proof fn lemma_place_above_bound(index: int, depth: nat, l: int)
    requires
        0 <= index < pow2(depth),
        0 <= l <= depth,
    ensures
        0 <= place_above(index, l) < pow2((depth - l) as nat),
    decreases l,
{
    if l > 0 {
        lemma_place_above_bound(index, depth, l - 1);
        lemma_pow2_unfold((depth - l + 1) as nat);
    }
}

/// Folding a leaf along the siblings of its place gives the root of the tree in which the leaf
/// takes that place.
pub proof fn lemma_fold_is_updated_root(
    levels: Seq<Seq<[u8; 32]>>,
    index: int,
    leaf: [u8; 32],
)
    requires
        is_tree(levels),
        0 <= index < levels[0].len(),
    ensures
        folded(leaf, sibling_hashes(levels, index), index) == tree_root(
            levels[0].update(index, leaf),
        ),
    decreases levels.len(),
{
    let s = levels[0];
    let depth = (levels.len() - 1) as nat;
    let t = s.update(index, leaf);
    if depth == 0 {
        vstd::arithmetic::power2::lemma2_to64();
    } else {
        lemma_pow2_unfold(depth);
        lemma_pow2_pos((depth - 1) as nat);
        let up = levels.drop_first();
        let sibs = sibling_hashes(levels, index);
        assert(levels[1] == parents(levels[0]));
        assert(up[0] == parents(s));
        assert forall|l: int| 0 <= l < up.len() - 1 implies up[l + 1] == parents(
            #[trigger] up[l],
        ) by {
            assert(levels[l + 1 + 1] == parents(levels[l + 1]));
        }
        assert forall|l: int| 0 <= l < depth - 1 implies sibs.drop_first()[l] == sibling_hashes(
            up,
            index / 2,
        )[l] by {
            lemma_place_above_step(index, l);
        }
        assert(sibs.drop_first() =~= sibling_hashes(up, index / 2));
        let joined = if index % 2 == 0 {
            branch_hash(leaf, sibs[0])
        } else {
            branch_hash(sibs[0], leaf)
        };
        assert(sibs[0] == s[sibling_place(index)]);
        assert(parents(t) =~= parents(s).update(index / 2, joined));
        lemma_fold_is_updated_root(up, index / 2, joined);
    }
}

/// The last level of a tree holds its root.
pub proof fn lemma_last_level_is_root(levels: Seq<Seq<[u8; 32]>>)
    requires
        is_tree(levels),
    ensures
        levels.last().len() == 1,
        levels.last()[0] == tree_root(levels[0]),
    decreases levels.len(),
{
    let depth = (levels.len() - 1) as nat;
    vstd::arithmetic::power2::lemma2_to64();
    lemma_level_width(levels, depth, depth as int);
    if depth > 0 {
        lemma_pow2_unfold(depth);
        lemma_pow2_pos((depth - 1) as nat);
        let up = levels.drop_first();
        assert(levels[1] == parents(levels[0]));
        assert forall|l: int| 0 <= l < up.len() - 1 implies up[l + 1] == parents(
            #[trigger] up[l],
        ) by {
            assert(levels[l + 1 + 1] == parents(levels[l + 1]));
        }
        lemma_last_level_is_root(up);
    }
}

/// Folding a leaf of the tree along its siblings gives the root.
pub proof fn lemma_fold_reproduces_root(levels: Seq<Seq<[u8; 32]>>, index: int)
    requires
        is_tree(levels),
        0 <= index < levels[0].len(),
    ensures
        folded(levels[0][index], sibling_hashes(levels, index), index) == levels.last()[0],
{
    lemma_fold_is_updated_root(levels, index, levels[0][index]);
    lemma_last_level_is_root(levels);
    assert(levels[0].update(index, levels[0][index]) =~= levels[0]);
}

/// A number of leaves has one required depth.
proof fn lemma_one_required_depth(count: nat, a: nat, b: nat)
    requires
        is_required_depth(count, a),
        is_required_depth(count, b),
    ensures
        a == b,
{
    if a < b {
        if a < b - 1 {
            lemma_pow2_strictly_increases(a, (b - 1) as nat);
        }
    } else if b < a {
        if b < a - 1 {
            lemma_pow2_strictly_increases(b, (a - 1) as nat);
        }
    }
}

/// A list of exits has one tree.
pub proof fn lemma_one_view(
    a: Seq<Seq<[u8; 32]>>,
    b: Seq<Seq<[u8; 32]>>,
    leaves: Seq<ExitLeaf>,
)
    requires
        is_view_of(a, leaves),
        is_view_of(b, leaves),
    ensures
        a.len() == b.len(),
        a[0] == b[0],
        a.last()[0] == b.last()[0],
{
    lemma_one_required_depth(leaves.len(), (a.len() - 1) as nat, (b.len() - 1) as nat);
    lemma_last_level_is_root(a);
    lemma_last_level_is_root(b);
}

/// In the tree over a list of exits, folding what stands at any place, empty ones included, along
/// the siblings of the place gives the root; and so the root with that leaf is the root.
pub proof fn lemma_view_folds_to_root(
    levels: Seq<Seq<[u8; 32]>>,
    leaves: Seq<ExitLeaf>,
    index: int,
)
    requires
        is_view_of(levels, leaves),
        0 <= index < levels[0].len(),
    ensures
        has_siblings(levels, index),
        folded(levels[0][index], sibling_hashes(levels, index), index) == levels.last()[0],
{
    lemma_tree_has_siblings(levels, index);
    lemma_fold_reproduces_root(levels, index);
}

/// The root with a replaced leaf is the root of the tree over the list of exits in which that exit
/// is replaced.
pub proof fn lemma_root_with_replaced_exit(
    levels: Seq<Seq<[u8; 32]>>,
    replaced: Seq<Seq<[u8; 32]>>,
    leaves: Seq<ExitLeaf>,
    index: int,
    exit: ExitLeaf,
)
    requires
        0 <= index < leaves.len(),
        is_view_of(levels, leaves),
        is_view_of(replaced, leaves.update(index, exit)),
    ensures
        has_siblings(levels, index),
        folded(
            exit_leaf_hash(StandardSpk::PubKey(&exit.pub_key), exit.amount),
            sibling_hashes(levels, index),
            index,
        ) == replaced.last()[0],
{
    let hash = exit_leaf_hash(StandardSpk::PubKey(&exit.pub_key), exit.amount);
    lemma_one_required_depth(
        leaves.len(),
        (levels.len() - 1) as nat,
        (replaced.len() - 1) as nat,
    );
    lemma_tree_has_siblings(levels, index);
    lemma_fold_is_updated_root(levels, index, hash);
    lemma_last_level_is_root(replaced);
    assert(replaced[0] =~= levels[0].update(index, hash));
}

} // verus!
