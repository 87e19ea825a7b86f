//! Bulk loading of a tree from its leaves in ascending order.
//!
//! The leaves are read once, with two of them buffered: enough to tell a subtree of one leaf from
//! a subtree of several without holding the subtree. Memory is bounded by the depth of the tree.

use vstd::prelude::*;

use crate::bytes::{lemma_lex_irreflexive, lex_less};
use crate::smt::key::{
    lemma_bits_determine_path, lemma_children_clear, lemma_children_cover, lemma_order_by_bit,
    lemma_root_clear, path_bit, under, Key,
};
use crate::smt::node::{HashedNode, Node, NodeHasher, ResourceId, EMPTY_HASH};
use crate::storage::{apply_ops, BatchOp, StoreState, WriteBatch};

verus! {

/// A resource and the hash of its value.
pub type Leaf = (ResourceId, [u8; 32]);

/// The resources are strictly ascending, so that none occurs twice.
pub open spec fn ascending(leaves: Seq<Leaf>) -> bool {
    forall|i: int, j: int|
        #![trigger leaves[i], leaves[j]]
        0 <= i < j < leaves.len() ==> lex_less(leaves[i].0@, leaves[j].0@)
}

/// The leaves whose path has a zero bit at `level`.
pub open spec fn zeros(leaves: Seq<Leaf>, level: int) -> Seq<Leaf> {
    leaves.filter(|leaf: Leaf| !path_bit(leaf.0, level))
}

/// The leaves whose path has a one bit at `level`.
pub open spec fn ones(leaves: Seq<Leaf>, level: int) -> Seq<Leaf> {
    leaves.filter(|leaf: Leaf| path_bit(leaf.0, level))
}

/// The summary of a child, which may be absent.
pub open spec fn child_summary(child: Option<Node>) -> HashedNode {
    match child {
        None => HashedNode::empty_spec(),
        Some(node) => node.summary_spec(),
    }
}

/// The node at `key` of the tree whose leaves under `key` are `leaves`: none without leaves, a
/// leaf for a single one however deep its path goes on, and otherwise the node over the two
/// halves.
pub open spec fn subtree<H: NodeHasher>(leaves: Seq<Leaf>, key: Key) -> Option<Node>
    decreases 256 - key.level,
{
    if leaves.len() == 0 || (leaves.len() > 1 && key.level >= 256) {
        None
    } else if leaves.len() == 1 {
        Some(Node::leaf_spec::<H>(leaves[0].0, leaves[0].1))
    } else {
        let level = key.level as int;
        Some(
            Node::internal_spec::<H>(
                child_summary(subtree::<H>(zeros(leaves, level), key.left_child_spec())),
                child_summary(subtree::<H>(ones(leaves, level), key.right_child_spec())),
            ),
        )
    }
}

/// The write of a child, which may be absent.
pub open spec fn child_write(key: Key, version: u64, child: Option<Node>) -> Seq<BatchOp> {
    match child {
        None => Seq::empty(),
        Some(node) => seq![BatchOp::PutNode { position: key, version, node }],
    }
}

/// The writes of all nodes below `key`: those below its left child, those below its right child,
/// then the two children.
pub open spec fn writes_below<H: NodeHasher>(leaves: Seq<Leaf>, key: Key, version: u64) -> Seq<
    BatchOp,
>
    decreases 256 - key.level,
{
    if leaves.len() <= 1 || key.level >= 256 {
        Seq::empty()
    } else {
        let left = zeros(leaves, key.level as int);
        let right = ones(leaves, key.level as int);
        let left_key = key.left_child_spec();
        let right_key = key.right_child_spec();
        writes_below::<H>(left, left_key, version) + writes_below::<H>(right, right_key, version)
            + child_write(left_key, version, subtree::<H>(left, left_key)) + child_write(
            right_key,
            version,
            subtree::<H>(right, right_key),
        )
    }
}

/// The root of the tree over `leaves`.
pub open spec fn root_node<H: NodeHasher>(leaves: Seq<Leaf>) -> Node {
    match subtree::<H>(leaves, Key::root_spec()) {
        None => Node::Empty,
        Some(node) => node,
    }
}

/// The writes that store the tree over `leaves`, the root last.
pub open spec fn tree_writes<H: NodeHasher>(leaves: Seq<Leaf>, version: u64) -> Seq<BatchOp> {
    writes_below::<H>(leaves, Key::root_spec(), version).push(
        BatchOp::PutNode { position: Key::root_spec(), version, node: root_node::<H>(leaves) },
    )
}

/// The number of leaves at the head of `leaves` that lie under `key`.
spec fn run(leaves: Seq<Leaf>, key: Key) -> int
    decreases leaves.len(),
{
    if leaves.len() > 0 && key.covers(leaves[0].0) {
        1 + run(leaves.drop_first(), key)
    } else {
        0
    }
}

proof fn lemma_run(leaves: Seq<Leaf>, key: Key)
    ensures
        0 <= run(leaves, key) <= leaves.len(),
        forall|i: int| 0 <= i < run(leaves, key) ==> key.covers((#[trigger] leaves[i]).0),
        run(leaves, key) < leaves.len() ==> !key.covers(leaves[run(leaves, key)].0),
    decreases leaves.len(),
{
    if leaves.len() > 0 && key.covers(leaves[0].0) {
        let tail = leaves.drop_first();
        lemma_run(tail, key);
        assert forall|i: int| 0 <= i < run(leaves, key) implies key.covers(
            (#[trigger] leaves[i]).0,
        ) by {
            if i > 0 {
                assert(key.covers(tail[i - 1].0));
            }
        }
    }
}

proof fn lemma_run_is(leaves: Seq<Leaf>, key: Key, n: int)
    requires
        0 <= n <= leaves.len(),
        forall|i: int| 0 <= i < n ==> key.covers((#[trigger] leaves[i]).0),
        n < leaves.len() ==> !key.covers(leaves[n].0),
    ensures
        run(leaves, key) == n,
{
    lemma_run(leaves, key);
    let m = run(leaves, key);
    if m < n {
        assert(key.covers(leaves[m].0));
    }
    if n < m {
        assert(key.covers(leaves[n].0));
    }
}

/// A filter that every item passes.
pub proof fn lemma_filter_all<A>(s: Seq<A>, p: spec_fn(A) -> bool)
    requires
        forall|i: int| 0 <= i < s.len() ==> p(#[trigger] s[i]),
    ensures
        s.filter(p) == s,
    decreases s.len(),
{
    reveal(Seq::filter);
    if s.len() > 0 {
        assert forall|i: int| 0 <= i < s.drop_last().len() implies p(
            #[trigger] s.drop_last()[i],
        ) by {
            assert(p(s[i]));
        }
        lemma_filter_all(s.drop_last(), p);
        assert(s =~= s.drop_last().push(s.last()));
    }
}

/// A sequence whose first `n` items, and no others, satisfy `p`.
proof fn lemma_filter_head<A>(s: Seq<A>, n: int, p: spec_fn(A) -> bool)
    requires
        0 <= n <= s.len(),
        forall|i: int| 0 <= i < s.len() ==> p(#[trigger] s[i]) == (i < n),
    ensures
        s.filter(p) == s.take(n),
{
    let head = s.take(n);
    let tail = s.skip(n);
    assert(s =~= head + tail);
    Seq::filter_distributes_over_add(head, tail, p);
    assert forall|i: int| 0 <= i < head.len() implies p(#[trigger] head[i]) by {
        assert(p(s[i]));
    }
    lemma_filter_all(head, p);
    assert forall|i: int| 0 <= i < tail.len() implies !p(#[trigger] tail[i]) by {
        assert(!p(s[n + i]));
    }
    tail.lemma_all_neg_filter_empty(p);
    assert(head + tail.filter(p) =~= head);
}

/// A sequence whose items from `n` on, and no others, satisfy `p`.
proof fn lemma_filter_tail<A>(s: Seq<A>, n: int, p: spec_fn(A) -> bool)
    requires
        0 <= n <= s.len(),
        forall|i: int| 0 <= i < s.len() ==> p(#[trigger] s[i]) == (i >= n),
    ensures
        s.filter(p) == s.skip(n),
{
    let head = s.take(n);
    let tail = s.skip(n);
    assert(s =~= head + tail);
    Seq::filter_distributes_over_add(head, tail, p);
    assert forall|i: int| 0 <= i < head.len() implies !p(#[trigger] head[i]) by {
        assert(!p(s[i]));
    }
    head.lemma_all_neg_filter_empty(p);
    assert forall|i: int| 0 <= i < tail.len() implies p(#[trigger] tail[i]) by {
        assert(p(s[n + i]));
    }
    lemma_filter_all(tail, p);
    assert(head.filter(p) + tail =~= tail);
}

/// Two different leaves do not both lie under a position of the greatest level.
proof fn lemma_two_leaves_level(leaves: Seq<Leaf>, key: Key)
    requires
        ascending(leaves),
        key.level <= 256,
        run(leaves, key) >= 2,
    ensures
        key.level < 256,
{
    if key.level == 256 {
        lemma_run(leaves, key);
        let a = leaves[0].0;
        let b = leaves[1].0;
        assert(key.covers(a) && key.covers(b));
        assert forall|i: int| 0 <= i < 256 implies path_bit(a, i) == path_bit(b, i) by {
            assert(path_bit(a, i) == path_bit(key.path, i));
            assert(path_bit(b, i) == path_bit(key.path, i));
        }
        lemma_bits_determine_path(a, b);
        lemma_lex_irreflexive(a@);
        assert(lex_less(leaves[0].0@, leaves[1].0@));
    }
}

/// In ascending order the leaves under `key` are those under its left child followed by those
/// under its right child.
proof fn lemma_split(leaves: Seq<Leaf>, key: Key)
    requires
        ascending(leaves),
        key.level < 256,
        key.bit_clear(),
    ensures
        ({
            let n = run(leaves, key);
            let here = leaves.take(n);
            let m = run(leaves, key.left_child_spec());
            let rest = leaves.skip(m);
            let k = run(rest, key.right_child_spec());
            &&& 0 <= m <= n <= leaves.len()
            &&& k == n - m
            &&& leaves.take(m) == zeros(here, key.level as int)
            &&& rest.take(k) == ones(here, key.level as int)
            &&& rest.skip(k) == leaves.skip(n)
            &&& ascending(rest)
        }),
{
    let level = key.level as int;
    let lk = key.left_child_spec();
    let rk = key.right_child_spec();
    let n = run(leaves, key);
    let m = run(leaves, lk);
    let here = leaves.take(n);
    lemma_run(leaves, key);
    lemma_run(leaves, lk);
    assert(!path_bit(key.path, level));
    assert forall|i: int| 0 <= i < leaves.len() implies lk.covers((#[trigger] leaves[i]).0) == (
    key.covers(leaves[i].0) && !path_bit(leaves[i].0, level)) && rk.covers(leaves[i].0) == (
    key.covers(leaves[i].0) && path_bit(leaves[i].0, level)) by {
        lemma_children_cover(key, leaves[i].0);
    }
    if m > n {
        assert(lk.covers(leaves[n].0));
    }
    // From the first one bit on, every leaf under the key has the one bit.
    assert forall|i: int| m <= i < n implies path_bit((#[trigger] leaves[i]).0, level) by {
        let a = leaves[m].0;
        let b = leaves[i].0;
        assert(key.covers(a) && key.covers(b));
        assert(path_bit(a, level));
        if i > m {
            assert(lex_less(a@, b@));
            assert forall|j: int| 0 <= j < level implies path_bit(a, j) == path_bit(b, j) by {
                assert(path_bit(a, j) == path_bit(key.path, j));
                assert(path_bit(b, j) == path_bit(key.path, j));
            }
            lemma_order_by_bit(a, b, level);
        }
    }
    let zero = |leaf: Leaf| !path_bit(leaf.0, level);
    let one = |leaf: Leaf| path_bit(leaf.0, level);
    assert forall|i: int| 0 <= i < here.len() implies zero(#[trigger] here[i]) == (i < m) && one(
        here[i],
    ) == (i >= m) by {
        if i < m {
            assert(lk.covers(leaves[i].0));
        } else {
            assert(path_bit(leaves[i].0, level));
        }
    }
    lemma_filter_head(here, m, zero);
    lemma_filter_tail(here, m, one);
    assert(here.take(m) =~= leaves.take(m));
    let rest = leaves.skip(m);
    assert forall|i: int| 0 <= i < n - m implies rk.covers((#[trigger] rest[i]).0) by {
        assert(path_bit(leaves[m + i].0, level));
        assert(key.covers(leaves[m + i].0));
    }
    if n - m < rest.len() {
        assert(rest[n - m] == leaves[n]);
    }
    lemma_run_is(rest, rk, n - m);
    assert(rest.take(n - m) =~= here.skip(m));
    assert(rest.skip(n - m) =~= leaves.skip(n));
    assert forall|i: int, j: int|
        #![trigger rest[i], rest[j]]
        0 <= i < j < rest.len() implies lex_less(rest[i].0@, rest[j].0@) by {
        assert(rest[i] == leaves[m + i] && rest[j] == leaves[m + j]);
    }
}

/// The leaves still to come: the two buffered ones and those of the iterator.
spec fn upcoming(a: Option<Leaf>, b: Option<Leaf>, tail: Seq<Leaf>) -> Seq<Leaf> {
    match (a, b) {
        (None, _) => Seq::empty(),
        (Some(x), None) => seq![x],
        (Some(x), Some(y)) => seq![x, y] + tail,
    }
}

/// The buffer is filled as far as there are leaves.
spec fn buffered(a: Option<Leaf>, b: Option<Leaf>, tail: Seq<Leaf>) -> bool {
    &&& a is None ==> b is None
    &&& b is None ==> tail.len() == 0
}

/// A stream of leaves of which the next two are buffered.
struct Stream<I: Iterator<Item = Leaf>> {
    iter: I,
    a: Option<Leaf>,
    b: Option<Leaf>,
}

impl<I: Iterator<Item = Leaf>> Stream<I> {
    /// Buffers the first two leaves.
    fn new(iter: I) -> (r: Stream<I>)
        requires
            vstd::std_specs::iter::IteratorSpec::obeys_prophetic_iter_laws(&iter),
        ensures
            vstd::std_specs::iter::IteratorSpec::obeys_prophetic_iter_laws(&r.iter),
            buffered(r.a, r.b, vstd::std_specs::iter::IteratorSpec::remaining(&r.iter)),
            upcoming(r.a, r.b, vstd::std_specs::iter::IteratorSpec::remaining(&r.iter))
                == vstd::std_specs::iter::IteratorSpec::remaining(&iter),
    {
        let mut iter = iter;
        let a = iter.next();
        let b = iter.next();
        Stream { iter, a, b }
    }

    /// The next leaf.
    fn peek(&self) -> (r: Option<&Leaf>)
        ensures
            match r {
                Some(leaf) => self.a == Some(*leaf),
                None => self.a is None,
            },
    {
        self.a.as_ref()
    }

    /// The leaf after the next.
    fn peek_second(&self) -> (r: Option<&Leaf>)
        ensures
            match r {
                Some(leaf) => self.b == Some(*leaf),
                None => self.b is None,
            },
    {
        self.b.as_ref()
    }

    /// Takes the next leaf.
    fn next(&mut self) -> (r: Option<Leaf>)
        requires
            vstd::std_specs::iter::IteratorSpec::obeys_prophetic_iter_laws(&old(self).iter),
            buffered(
                old(self).a,
                old(self).b,
                vstd::std_specs::iter::IteratorSpec::remaining(&old(self).iter),
            ),
        ensures
            r == old(self).a,
            vstd::std_specs::iter::IteratorSpec::obeys_prophetic_iter_laws(&final(self).iter),
            buffered(
                final(self).a,
                final(self).b,
                vstd::std_specs::iter::IteratorSpec::remaining(&final(self).iter),
            ),
            r is Some ==> upcoming(
                final(self).a,
                final(self).b,
                vstd::std_specs::iter::IteratorSpec::remaining(&final(self).iter),
            ) == upcoming(
                old(self).a,
                old(self).b,
                vstd::std_specs::iter::IteratorSpec::remaining(&old(self).iter),
            ).drop_first(),
    {
        let out = self.a.take();
        self.a = self.b.take();
        self.b = self.iter.next();
        out
    }
}

/// Writes a child and returns its summary; an absent child has the empty summary and no write.
fn write_child<W: WriteBatch>(wb: &mut W, version: u64, key: &Key, child: &Option<Node>) -> (r:
    HashedNode)
    ensures
        r == child_summary(*child),
        final(wb).ops() == old(wb).ops() + child_write(*key, version, *child),
{
    match child {
        None => {
            assert(wb.ops() =~= old(wb).ops() + child_write(*key, version, *child));
            HashedNode::empty()
        },
        Some(node) => {
            wb.put_node(key, version, node);
            assert(wb.ops() =~= old(wb).ops() + child_write(*key, version, *child));
            node.summary()
        },
    }
}

/// Builds the subtree at `key` from the leaves of the stream that lie under `key`, and takes
/// exactly those. Writes all nodes below `key`; the node at `key` is returned and left to the
/// caller to write.
fn build<W: WriteBatch, H: NodeHasher, I: Iterator<Item = Leaf>>(
    wb: &mut W,
    version: u64,
    key: &Key,
    stream: &mut Stream<I>,
) -> (r: Option<Node>)
    requires
        key.level <= 256,
        key.bit_clear(),
        vstd::std_specs::iter::IteratorSpec::obeys_prophetic_iter_laws(&old(stream).iter),
        buffered(
            old(stream).a,
            old(stream).b,
            vstd::std_specs::iter::IteratorSpec::remaining(&old(stream).iter),
        ),
        ascending(
            upcoming(
                old(stream).a,
                old(stream).b,
                vstd::std_specs::iter::IteratorSpec::remaining(&old(stream).iter),
            ),
        ),
    ensures
        vstd::std_specs::iter::IteratorSpec::obeys_prophetic_iter_laws(&final(stream).iter),
        buffered(
            final(stream).a,
            final(stream).b,
            vstd::std_specs::iter::IteratorSpec::remaining(&final(stream).iter),
        ),
        ({
            let before = upcoming(
                old(stream).a,
                old(stream).b,
                vstd::std_specs::iter::IteratorSpec::remaining(&old(stream).iter),
            );
            let after = upcoming(
                final(stream).a,
                final(stream).b,
                vstd::std_specs::iter::IteratorSpec::remaining(&final(stream).iter),
            );
            let n = run(before, *key);
            &&& after == before.skip(n)
            &&& r == subtree::<H>(before.take(n), *key)
            &&& final(wb).ops() == old(wb).ops() + writes_below::<H>(
                before.take(n),
                *key,
                version,
            )
        }),
    decreases 256 - key.level,
{
    let ghost before = upcoming(
        stream.a,
        stream.b,
        vstd::std_specs::iter::IteratorSpec::remaining(&stream.iter),
    );
    proof {
        lemma_run(before, *key);
    }
    let some = match stream.peek() {
        Some(leaf) => under(key, &leaf.0),
        None => false,
    };
    if !some {
        proof {
            assert(run(before, *key) == 0);
            assert(before.skip(0) =~= before);
            assert(wb.ops() =~= old(wb).ops() + writes_below::<H>(before.take(0), *key, version));
        }
        return None;
    }
    let several = match stream.peek_second() {
        Some(leaf) => under(key, &leaf.0),
        None => false,
    };
    if !several {
        proof {
            lemma_run_is(before, *key, 1);
            assert(before.skip(1) =~= before.drop_first());
            assert(wb.ops() =~= old(wb).ops() + writes_below::<H>(before.take(1), *key, version));
        }
        return match stream.next() {
            Some(leaf) => Some(Node::leaf::<H>(leaf.0, leaf.1)),
            None => None,
        };
    }
    proof {
        if run(before, *key) < 2 {
            assert(key.covers(before[0].0) && key.covers(before[1].0));
        }
        lemma_two_leaves_level(before, *key);
        lemma_children_clear(*key);
        lemma_split(before, *key);
    }
    let left_key = key.left_child();
    let right_key = key.right_child();
    let left = build::<W, H, I>(wb, version, &left_key, stream);
    let right = build::<W, H, I>(wb, version, &right_key, stream);
    let left_hn = write_child(wb, version, &left_key, &left);
    let right_hn = write_child(wb, version, &right_key, &right);
    proof {
        let here = before.take(run(before, *key));
        assert(wb.ops() =~= old(wb).ops() + writes_below::<H>(here, *key, version));
    }
    Some(Node::internal::<H>(&left_hn, &right_hn))
}

/// Stores the tree over `leaves` in `wb` and returns the hash of its root. A tree without leaves
/// is stored as an empty root.
pub fn build_sorted<W: WriteBatch, H: NodeHasher, I: Iterator<Item = Leaf>>(
    wb: &mut W,
    version: u64,
    leaves: I,
) -> (r: [u8; 32])
    requires
        version > 0,
        vstd::std_specs::iter::IteratorSpec::obeys_prophetic_iter_laws(&leaves),
        ascending(vstd::std_specs::iter::IteratorSpec::remaining(&leaves)),
    ensures
        r == root_node::<H>(
            vstd::std_specs::iter::IteratorSpec::remaining(&leaves),
        ).hash_spec(),
        final(wb).ops() == old(wb).ops() + tree_writes::<H>(
            vstd::std_specs::iter::IteratorSpec::remaining(&leaves),
            version,
        ),
{
    let ghost all = vstd::std_specs::iter::IteratorSpec::remaining(&leaves);
    let mut stream = Stream::new(leaves);
    let root = Key::root();
    proof {
        lemma_root_clear();
        lemma_run_is(all, root, all.len() as int);
        assert(all.take(all.len() as int) =~= all);
    }
    let hash = match build::<W, H, I>(wb, version, &root, &mut stream) {
        None => {
            wb.put_node(&root, version, &Node::Empty);
            EMPTY_HASH
        },
        Some(node) => {
            wb.put_node(&root, version, &node);
            node.hash()
        },
    };
    assert(wb.ops() =~= old(wb).ops() + tree_writes::<H>(all, version));
    hash
}

/// `op` writes a node at `version` to a position strictly below `key`.
pub open spec fn writes_under(op: BatchOp, key: Key, version: u64) -> bool {
    &&& op is PutNode
    &&& op->version == version
    &&& key.level < op->position.level <= 256
    &&& key.covers(op->position.path)
}

/// No position is written twice.
pub open spec fn distinct_positions(ops: Seq<BatchOp>) -> bool {
    forall|i: int, j: int|
        #![trigger ops[i], ops[j]]
        0 <= i < j < ops.len() ==> ops[i]->position != ops[j]->position
}

/// A child covers its own path, and so does its parent.
proof fn lemma_children_covered(key: Key)
    requires
        key.level < 256,
        key.bit_clear(),
    ensures
        key.covers(key.left_child_spec().path),
        key.covers(key.right_child_spec().path),
        !path_bit(key.left_child_spec().path, key.level as int),
        path_bit(key.right_child_spec().path, key.level as int),
{
    lemma_children_cover(key, key.left_child_spec().path);
    lemma_children_cover(key, key.right_child_spec().path);
    assert(key.left_child_spec().covers(key.left_child_spec().path));
    assert(key.right_child_spec().covers(key.right_child_spec().path));
}

/// The writes below a position carry the version, are for positions strictly below it, and no two
/// are for the same one.
pub proof fn lemma_writes_below<H: NodeHasher>(leaves: Seq<Leaf>, key: Key, version: u64)
    requires
        key.level <= 256,
        key.bit_clear(),
    ensures
        forall|i: int|
            #![trigger writes_below::<H>(leaves, key, version)[i]]
            0 <= i < writes_below::<H>(leaves, key, version).len() ==> writes_under(
                writes_below::<H>(leaves, key, version)[i],
                key,
                version,
            ),
        distinct_positions(writes_below::<H>(leaves, key, version)),
    decreases 256 - key.level,
{
    if leaves.len() > 1 && key.level < 256 {
        let level = key.level as int;
        let left = zeros(leaves, level);
        let right = ones(leaves, level);
        let lk = key.left_child_spec();
        let rk = key.right_child_spec();
        let a = writes_below::<H>(left, lk, version);
        let b = writes_below::<H>(right, rk, version);
        let c = child_write(lk, version, subtree::<H>(left, lk));
        let d = child_write(rk, version, subtree::<H>(right, rk));
        let w = writes_below::<H>(leaves, key, version);
        assert(w == a + b + c + d);
        lemma_children_clear(key);
        lemma_children_covered(key);
        lemma_writes_below::<H>(left, lk, version);
        lemma_writes_below::<H>(right, rk, version);
        // Where in the four parts a write stands, by the position that it is for.
        assert forall|i: int| #![trigger w[i]] 0 <= i < w.len() implies writes_under(
            w[i],
            key,
            version,
        ) && path_bit(w[i]->position.path, level) == (a.len() <= i < a.len() + b.len() || i
            >= a.len() + b.len() + c.len()) && (w[i]->position.level == level + 1) == (i
            >= a.len() + b.len()) by {
            if i < a.len() {
                assert(w[i] == a[i]);
                lemma_children_cover(key, a[i]->position.path);
            } else if i < a.len() + b.len() {
                assert(w[i] == b[i - a.len()]);
                lemma_children_cover(key, b[i - a.len()]->position.path);
            } else if i < a.len() + b.len() + c.len() {
                assert(w[i] == c[i - a.len() - b.len()]);
            } else {
                assert(w[i] == d[i - a.len() - b.len() - c.len()]);
            }
        }
        assert forall|i: int, j: int|
            #![trigger w[i], w[j]]
            0 <= i < j < w.len() implies w[i]->position != w[j]->position by {
            if j < a.len() {
                assert(w[i] == a[i] && w[j] == a[j]);
            } else if a.len() <= i && j < a.len() + b.len() {
                assert(w[i] == b[i - a.len()] && w[j] == b[j - a.len()]);
            }
        }
    }
}

/// Every write of a tree is of a node, carries the version and is for a position that no other
/// write is for.
pub proof fn lemma_tree_writes<H: NodeHasher>(leaves: Seq<Leaf>, version: u64)
    ensures
        forall|i: int|
            #![trigger tree_writes::<H>(leaves, version)[i]]
            0 <= i < tree_writes::<H>(leaves, version).len() ==> {
                &&& tree_writes::<H>(leaves, version)[i] is PutNode
                &&& tree_writes::<H>(leaves, version)[i]->version == version
            },
        distinct_positions(tree_writes::<H>(leaves, version)),
{
    let root = Key::root_spec();
    let below = writes_below::<H>(leaves, root, version);
    let w = tree_writes::<H>(leaves, version);
    lemma_root_clear();
    lemma_writes_below::<H>(leaves, root, version);
    assert forall|i: int| #![trigger w[i]] 0 <= i < w.len() implies w[i] is PutNode && w[i]->version
        == version by {
        if i < below.len() {
            assert(w[i] == below[i]);
        }
    }
    assert forall|i: int, j: int| #![trigger w[i], w[j]] 0 <= i < j < w.len() implies w[i]->position != w[j]->position by {
        assert(w[i] == below[i]);
        if j < below.len() {
            assert(w[j] == below[j]);
        }
    }
}

proof fn lemma_node_survives(state: StoreState, ops: Seq<BatchOp>, i: int)
    requires
        0 <= i < ops.len(),
        forall|j: int| 0 <= j < ops.len() ==> (#[trigger] ops[j]) is PutNode,
        distinct_positions(ops),
    ensures
        apply_ops(state, ops).nodes.contains_pair(
            (ops[i]->position, ops[i]->version),
            ops[i]->node,
        ),
    decreases ops.len(),
{
    let before = ops.drop_last();
    if i < before.len() {
        assert(before[i] == ops[i]);
        assert forall|j: int| 0 <= j < before.len() implies (#[trigger] before[j]) is PutNode by {
            assert(ops[j] is PutNode);
        }
        assert forall|a: int, b: int|
            #![trigger before[a], before[b]]
            0 <= a < b < before.len() implies before[a]->position != before[b]->position by {
            assert(ops[a]->position != ops[b]->position);
        }
        lemma_node_survives(state, before, i);
        assert(ops[i]->position != ops[ops.len() - 1]->position);
    }
    assert(ops[ops.len() - 1] is PutNode);
}

/// Once the writes of a tree are committed, whatever the store held, each of its nodes is found at
/// its position and version, the root among them.
pub proof fn lemma_tree_committed<H: NodeHasher>(
    state: StoreState,
    leaves: Seq<Leaf>,
    version: u64,
    i: int,
)
    requires
        0 <= i < tree_writes::<H>(leaves, version).len(),
    ensures
        ({
            let op = tree_writes::<H>(leaves, version)[i];
            apply_ops(state, tree_writes::<H>(leaves, version)).nodes.contains_pair(
                (op->position, version),
                op->node,
            )
        }),
        apply_ops(state, tree_writes::<H>(leaves, version)).nodes.contains_pair(
            (Key::root_spec(), version),
            root_node::<H>(leaves),
        ),
{
    let w = tree_writes::<H>(leaves, version);
    lemma_tree_writes::<H>(leaves, version);
    lemma_node_survives(state, w, i);
    lemma_node_survives(state, w, w.len() - 1);
}

/// `op` writes to `key` a node with summary `child`.
pub open spec fn stores_child(op: BatchOp, key: Key, child: HashedNode) -> bool {
    op is PutNode && op->position == key && op->node.summary_spec() == child
}

/// Where write `i` is of a node over two children, each child is empty or is written before it.
pub open spec fn children_before(ops: Seq<BatchOp>, i: int) -> bool {
    ops[i]->node matches Node::Internal { left, right, .. } ==> {
        let key = ops[i]->position;
        &&& left == HashedNode::empty_spec() || exists|j: int|
            0 <= j < i && stores_child(#[trigger] ops[j], key.left_child_spec(), left)
        &&& right == HashedNode::empty_spec() || exists|j: int|
            0 <= j < i && stores_child(#[trigger] ops[j], key.right_child_spec(), right)
    }
}

/// A write whose children are written before it within a part of the writes has them before it
/// in the whole.
proof fn lemma_children_before_within(ops: Seq<BatchOp>, part: Seq<BatchOp>, at: int, i: int)
    requires
        0 <= i < part.len(),
        0 <= at,
        at + part.len() <= ops.len(),
        part == ops.subrange(at, at + part.len()),
        children_before(part, i),
    ensures
        children_before(ops, at + i),
{
    assert(part[i] == ops[at + i]);
    if let Node::Internal { left, right, .. } = ops[at + i]->node {
        let key = ops[at + i]->position;
        if left != HashedNode::empty_spec() {
            let j = choose|j: int|
                0 <= j < i && stores_child(#[trigger] part[j], key.left_child_spec(), left);
            assert(part[j] == ops[at + j]);
        }
        if right != HashedNode::empty_spec() {
            let j = choose|j: int|
                0 <= j < i && stores_child(#[trigger] part[j], key.right_child_spec(), right);
            assert(part[j] == ops[at + j]);
        }
    }
}

/// A node over two children, written after all nodes below its position, has its children before
/// it.
proof fn lemma_children_before_top<H: NodeHasher>(
    ops: Seq<BatchOp>,
    at: int,
    i: int,
    leaves: Seq<Leaf>,
    key: Key,
    version: u64,
)
    requires
        ({
            let below = writes_below::<H>(leaves, key, version);
            &&& 0 <= at
            &&& at + below.len() <= i < ops.len()
            &&& below == ops.subrange(at, at + below.len())
        }),
        ops[i] is PutNode,
        ops[i]->position == key,
        subtree::<H>(leaves, key) == Some(ops[i]->node),
    ensures
        children_before(ops, i),
{
    if leaves.len() > 1 && key.level < 256 {
        let left = zeros(leaves, key.level as int);
        let right = ones(leaves, key.level as int);
        let lk = key.left_child_spec();
        let rk = key.right_child_spec();
        let a = writes_below::<H>(left, lk, version);
        let b = writes_below::<H>(right, rk, version);
        let c = child_write(lk, version, subtree::<H>(left, lk));
        let d = child_write(rk, version, subtree::<H>(right, rk));
        let below = writes_below::<H>(leaves, key, version);
        assert(below == a + b + c + d);
        if let Some(node) = subtree::<H>(left, lk) {
            let j = a.len() + b.len();
            assert(below[j as int] == c[0]);
            assert(ops[at + j] == below[j as int]);
            assert(stores_child(ops[at + j], lk, node.summary_spec()));
        }
        if let Some(node) = subtree::<H>(right, rk) {
            let j = a.len() + b.len() + c.len();
            assert(below[j as int] == d[0]);
            assert(ops[at + j] == below[j as int]);
            assert(stores_child(ops[at + j], rk, node.summary_spec()));
        }
    }
}

proof fn lemma_below_children_before<H: NodeHasher>(leaves: Seq<Leaf>, key: Key, version: u64)
    ensures
        forall|i: int|
            0 <= i < writes_below::<H>(leaves, key, version).len() ==> #[trigger] children_before(
                writes_below::<H>(leaves, key, version),
                i,
            ),
    decreases 256 - key.level,
{
    if leaves.len() > 1 && key.level < 256 {
        let left = zeros(leaves, key.level as int);
        let right = ones(leaves, key.level as int);
        let lk = key.left_child_spec();
        let rk = key.right_child_spec();
        let a = writes_below::<H>(left, lk, version);
        let b = writes_below::<H>(right, rk, version);
        let c = child_write(lk, version, subtree::<H>(left, lk));
        let d = child_write(rk, version, subtree::<H>(right, rk));
        let w = writes_below::<H>(leaves, key, version);
        assert(w == a + b + c + d);
        lemma_below_children_before::<H>(left, lk, version);
        lemma_below_children_before::<H>(right, rk, version);
        assert(a =~= w.subrange(0, a.len() as int));
        assert(b =~= w.subrange(a.len() as int, (a.len() + b.len()) as int));
        assert forall|i: int| 0 <= i < w.len() implies #[trigger] children_before(w, i) by {
            if i < a.len() {
                lemma_children_before_within(w, a, 0, i);
            } else if i < a.len() + b.len() {
                lemma_children_before_within(w, b, a.len() as int, i - a.len());
            } else if i < a.len() + b.len() + c.len() {
                assert(w[i] == c[0]);
                lemma_children_before_top::<H>(w, 0, i, left, lk, version);
            } else {
                assert(w[i] == d[0]);
                lemma_children_before_top::<H>(w, a.len() as int, i, right, rk, version);
            }
        }
    }
}

/// Every node over two children is written after both of them, and its summaries are theirs.
pub proof fn lemma_children_written_first<H: NodeHasher>(leaves: Seq<Leaf>, version: u64, i: int)
    requires
        0 <= i < tree_writes::<H>(leaves, version).len(),
    ensures
        children_before(tree_writes::<H>(leaves, version), i),
{
    let root = Key::root_spec();
    let below = writes_below::<H>(leaves, root, version);
    let w = tree_writes::<H>(leaves, version);
    assert(below =~= w.subrange(0, below.len() as int));
    lemma_below_children_before::<H>(leaves, root, version);
    if i < below.len() {
        assert(children_before(below, i));
        lemma_children_before_within(w, below, 0, i);
    } else if leaves.len() > 0 {
        lemma_children_before_top::<H>(w, 0, i, leaves, root, version);
    }
}

proof fn lemma_leaf_below<H: NodeHasher>(leaves: Seq<Leaf>, key: Key, version: u64, i: int)
    requires
        ascending(leaves),
        key.level <= 256,
        key.bit_clear(),
        forall|j: int| 0 <= j < leaves.len() ==> key.covers((#[trigger] leaves[j]).0),
        0 <= i < leaves.len(),
    ensures
        ({
            let leaf = Node::leaf_spec::<H>(leaves[i].0, leaves[i].1);
            let w = writes_below::<H>(leaves, key, version);
            subtree::<H>(leaves, key) == Some(leaf) || exists|j: int|
                0 <= j < w.len() && (#[trigger] w[j])->node == leaf
        }),
    decreases 256 - key.level,
{
    if leaves.len() > 1 {
        let n = leaves.len() as int;
        let level = key.level as int;
        lemma_run_is(leaves, key, n);
        lemma_two_leaves_level(leaves, key);
        lemma_split(leaves, key);
        lemma_children_clear(key);
        assert(leaves.take(n) =~= leaves);
        let lk = key.left_child_spec();
        let rk = key.right_child_spec();
        let m = run(leaves, lk);
        let left = zeros(leaves, level);
        let right = ones(leaves, level);
        assert(left == leaves.take(m));
        assert(right =~= leaves.skip(m));
        lemma_run(leaves, lk);
        lemma_run(leaves.skip(m), rk);
        let a = writes_below::<H>(left, lk, version);
        let b = writes_below::<H>(right, rk, version);
        let c = child_write(lk, version, subtree::<H>(left, lk));
        let d = child_write(rk, version, subtree::<H>(right, rk));
        let w = writes_below::<H>(leaves, key, version);
        assert(w == a + b + c + d);
        let leaf = Node::leaf_spec::<H>(leaves[i].0, leaves[i].1);
        if i < m {
            assert(left[i] == leaves[i]);
            assert forall|j: int| 0 <= j < left.len() implies lk.covers((#[trigger] left[j]).0) by {
                assert(left[j] == leaves[j]);
            }
            assert forall|x: int, y: int|
                #![trigger left[x], left[y]]
                0 <= x < y < left.len() implies lex_less(left[x].0@, left[y].0@) by {
                assert(left[x] == leaves[x] && left[y] == leaves[y]);
            }
            lemma_leaf_below::<H>(left, lk, version, i);
            if subtree::<H>(left, lk) == Some(leaf) {
                assert(w[(a.len() + b.len()) as int] == c[0]);
            } else {
                let j = choose|j: int| 0 <= j < a.len() && (#[trigger] a[j])->node == leaf;
                assert(w[j] == a[j]);
            }
        } else {
            assert(right[i - m] == leaves[i]);
            assert forall|j: int| 0 <= j < right.len() implies rk.covers(
                (#[trigger] right[j]).0,
            ) by {
                assert(right[j] == leaves.skip(m)[j]);
            }
            lemma_leaf_below::<H>(right, rk, version, i - m);
            if subtree::<H>(right, rk) == Some(leaf) {
                assert(w[(a.len() + b.len() + c.len()) as int] == d[0]);
            } else {
                let j = choose|j: int| 0 <= j < b.len() && (#[trigger] b[j])->node == leaf;
                assert(w[a.len() + j] == b[j]);
            }
        }
    }
}

/// The tree holds each of its leaves: one of the writes is of the leaf itself.
pub proof fn lemma_every_leaf_written<H: NodeHasher>(leaves: Seq<Leaf>, version: u64, i: int)
    requires
        ascending(leaves),
        0 <= i < leaves.len(),
    ensures
        exists|j: int|
            #![trigger tree_writes::<H>(leaves, version)[j]]
            0 <= j < tree_writes::<H>(leaves, version).len() && tree_writes::<H>(
                leaves,
                version,
            )[j]->node == Node::leaf_spec::<H>(leaves[i].0, leaves[i].1),
{
    let root = Key::root_spec();
    let below = writes_below::<H>(leaves, root, version);
    let w = tree_writes::<H>(leaves, version);
    let leaf = Node::leaf_spec::<H>(leaves[i].0, leaves[i].1);
    lemma_root_clear();
    lemma_leaf_below::<H>(leaves, root, version, i);
    if subtree::<H>(leaves, root) == Some(leaf) {
        assert(w[below.len() as int]->node == leaf);
    } else {
        let j = choose|j: int| 0 <= j < below.len() && (#[trigger] below[j])->node == leaf;
        assert(w[j] == below[j]);
    }
}

/// The root is empty for no leaves, a leaf for one and a node over two children for more.
pub proof fn lemma_root_shape<H: NodeHasher>(leaves: Seq<Leaf>)
    ensures
        root_node::<H>(leaves) is Empty <==> leaves.len() == 0,
        root_node::<H>(leaves) is Leaf <==> leaves.len() == 1,
        root_node::<H>(leaves) is Internal <==> leaves.len() > 1,
        leaves.len() == 0 ==> root_node::<H>(leaves).hash_spec() == EMPTY_HASH,
{
}

proof fn lemma_filter_count<A>(s: Seq<A>, p: spec_fn(A) -> bool, x: A)
    ensures
        s.filter(p).to_multiset().count(x) == if p(x) {
            s.to_multiset().count(x)
        } else {
            0
        },
    decreases s.len(),
{
    broadcast use vstd::seq_lib::group_to_multiset_ensures;
    broadcast use vstd::multiset::group_multiset_axioms;

    reveal(Seq::filter);
    if s.len() > 0 {
        let head = s.drop_last();
        lemma_filter_count(head, p, x);
        assert(s =~= head.push(s.last()));
    }
}

/// Permuted lists stay permuted when filtered.
pub proof fn lemma_filter_permuted<A>(a: Seq<A>, b: Seq<A>, p: spec_fn(A) -> bool)
    requires
        a.to_multiset() == b.to_multiset(),
    ensures
        a.filter(p).to_multiset() == b.filter(p).to_multiset(),
{
    assert forall|x: A|
        a.filter(p).to_multiset().count(x) == b.filter(p).to_multiset().count(x) by {
        lemma_filter_count(a, p, x);
        lemma_filter_count(b, p, x);
    }
    assert(a.filter(p).to_multiset() =~= b.filter(p).to_multiset());
}

proof fn lemma_subtree_permuted<H: NodeHasher>(
    a: Seq<Leaf>,
    b: Seq<Leaf>,
    key: Key,
    version: u64,
)
    requires
        a.to_multiset() == b.to_multiset(),
    ensures
        subtree::<H>(a, key) == subtree::<H>(b, key),
        writes_below::<H>(a, key, version) == writes_below::<H>(b, key, version),
    decreases 256 - key.level,
{
    broadcast use vstd::seq_lib::group_to_multiset_ensures;

    assert(a.len() == a.to_multiset().len());
    assert(b.len() == b.to_multiset().len());
    if a.len() == 1 {
        assert(a.contains(a[0]));
        assert(a.to_multiset().count(a[0]) > 0);
        assert(b.contains(a[0]));
    } else if a.len() > 1 && key.level < 256 {
        let level = key.level as int;
        lemma_filter_permuted(a, b, |leaf: Leaf| !path_bit(leaf.0, level));
        lemma_filter_permuted(a, b, |leaf: Leaf| path_bit(leaf.0, level));
        lemma_subtree_permuted::<H>(
            zeros(a, level),
            zeros(b, level),
            key.left_child_spec(),
            version,
        );
        lemma_subtree_permuted::<H>(
            ones(a, level),
            ones(b, level),
            key.right_child_spec(),
            version,
        );
    }
}

/// The tree depends on which leaves there are, not on the order in which they are given.
pub proof fn lemma_tree_ignores_order<H: NodeHasher>(a: Seq<Leaf>, b: Seq<Leaf>, version: u64)
    requires
        a.to_multiset() == b.to_multiset(),
    ensures
        root_node::<H>(a) == root_node::<H>(b),
        tree_writes::<H>(a, version) == tree_writes::<H>(b, version),
{
    lemma_subtree_permuted::<H>(a, b, Key::root_spec(), version);
}

} // verus!
