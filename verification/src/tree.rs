//! The binary-trie route compressor.
//!
//! A `Tree` holds colored prefixes as bit paths. Color 0 is reserved and
//! means "no gateway"; colors `1..=K` name the gateways. A dynamic
//! programming pass (`dp`) computes, per node and per inherited color, the
//! least number of routes the subtree needs, and `generate` walks the tree
//! emitting exactly those routes.

use vstd::prelude::*;

verus! {

/// Ghost model of a trie node: only the structure and the leaf colors,
/// independent of any dynamic-programming state.
#[verifier::ext_equal]
pub enum Shape {
    /// No node at this position.
    Absent,
    /// A node with its color and its two (possibly absent) children.
    Node { color: nat, c0: Box<Shape>, c1: Box<Shape> },
}

/// A present node with no children.
pub open spec fn shape_is_leaf(s: Shape) -> bool {
    s is Node && *s->c0 is Absent && *s->c1 is Absent
}

/// The shape of a freshly created, unmarked node.
pub open spec fn empty_shape() -> Shape {
    Shape::Node { color: 0, c0: Box::new(Shape::Absent), c1: Box::new(Shape::Absent) }
}

/// Well-formed trie: every leaf carries a color in `[1, k]`, every internal
/// node carries color 0.
pub open spec fn shape_wf(s: Shape, k: nat) -> bool
    decreases s,
{
    match s {
        Shape::Absent => true,
        Shape::Node { color, c0, c1 } => {
            if *c0 is Absent && *c1 is Absent {
                1 <= color <= k
            } else {
                color == 0 && shape_wf(*c0, k) && shape_wf(*c1, k)
            }
        },
    }
}

/// Number of leaf nodes (nodes without children).
pub open spec fn leaves(s: Shape) -> nat
    decreases s,
{
    match s {
        Shape::Absent => 0,
        Shape::Node { color, c0, c1 } => {
            if *c0 is Absent && *c1 is Absent {
                1
            } else {
                leaves(*c0) + leaves(*c1)
            }
        },
    }
}

/// The color stored at the node reached by `path`, or 0 where no node
/// exists. `false` descends to the 0-bit child, `true` to the 1-bit child.
pub open spec fn color_at(s: Shape, path: Seq<bool>) -> nat
    decreases s,
{
    match s {
        Shape::Absent => 0,
        Shape::Node { color, c0, c1 } => {
            if path.len() == 0 {
                color
            } else if !path[0] {
                color_at(*c0, path.skip(1))
            } else {
                color_at(*c1, path.skip(1))
            }
        },
    }
}

/// Whether a node exists at the end of `path`.
pub open spec fn node_at(s: Shape, path: Seq<bool>) -> bool
    decreases s,
{
    match s {
        Shape::Absent => false,
        Shape::Node { color, c0, c1 } => {
            if path.len() == 0 {
                true
            } else if !path[0] {
                node_at(*c0, path.skip(1))
            } else {
                node_at(*c1, path.skip(1))
            }
        },
    }
}


/// The first `len` bits of the byte sequence, most significant bit of each
/// byte first, lower byte index first.
pub open spec fn bits_of(octets: Seq<u8>, len: int) -> Seq<bool> {
    path_bits(octets, 0, len)
}

/// Bits `a..b` of the byte sequence, in the same order.
pub open spec fn path_bits(octets: Seq<u8>, a: int, b: int) -> Seq<bool> {
    Seq::new((b - a) as nat, |i: int| crate::bits::bit_at(octets[(a + i) / 8], (a + i) % 8))
}

/// The child of a present node selected by one path bit.
pub open spec fn child_of(s: Shape, b: bool) -> Shape
    recommends
        s is Node,
{
    if b {
        *s->c1
    } else {
        *s->c0
    }
}

/// A mark along `path` would overlap an existing mark: either some proper
/// prefix of `path` is already marked, or a node below `path` exists.
pub open spec fn conflicts(s: Shape, path: Seq<bool>) -> bool {
    (exists|i: int| 0 <= i < path.len() && color_at(s, path.take(i)) != 0) || internal_at(s, path)
}

/// Whether the node at `path` exists and has a present child.
pub open spec fn internal_at(s: Shape, path: Seq<bool>) -> bool
    decreases s,
{
    match s {
        Shape::Absent => false,
        Shape::Node { color, c0, c1 } => {
            if path.len() == 0 {
                !(*c0 is Absent) || !(*c1 is Absent)
            } else if !path[0] {
                internal_at(*c0, path.skip(1))
            } else {
                internal_at(*c1, path.skip(1))
            }
        },
    }
}

/// Marking rejects input that overlaps an already marked prefix.
#[derive(Clone, Copy, Debug, PartialEq, Eq, Structural)]
pub enum MarkError {
    /// The new prefix strictly contains, or is contained in, a marked one.
    Overlap,
}

proof fn lemma_empty_quiet(q: Seq<bool>)
    ensures
        !conflicts(empty_shape(), q),
        color_at(empty_shape(), q) == 0,
        color_at(Shape::Absent, q) == 0,
{
    assert(color_at(Shape::Absent, q) == 0);
    if q.len() == 0 {
        assert(!internal_at(empty_shape(), q));
    } else {
        assert(internal_at(empty_shape(), q) == internal_at(Shape::Absent, q.skip(1)));
        assert(!internal_at(Shape::Absent, q.skip(1)));
        assert(color_at(empty_shape(), q) == color_at(Shape::Absent, q.skip(1)));
    }
    assert forall|i: int| 0 <= i < q.len() implies color_at(empty_shape(), q.take(i)) == 0 by {
        let t = q.take(i);
        if t.len() != 0 {
            assert(color_at(empty_shape(), t) == color_at(Shape::Absent, t.skip(1)));
        }
    }
}

proof fn lemma_shape_is_node(n: Node)
    ensures
        n.shape() is Node,
{
}

proof fn lemma_conflicts_step(s: Shape, path: Seq<bool>)
    requires
        s is Node,
        path.len() > 0,
    ensures
        conflicts(s, path) == (s->color != 0 || conflicts(child_of(s, path[0]), path.skip(1))),
{
    let c = child_of(s, path[0]);
    let q = path.skip(1);
    assert forall|i: int| 0 <= i < path.len() implies color_at(s, path.take(i)) == (if i == 0 {
        s->color
    } else {
        color_at(c, q.take(i - 1))
    }) by {
        if i > 0 {
            assert(path.take(i).skip(1) =~= q.take(i - 1));
            assert(color_at(s, path.take(i)) == color_at(c, path.take(i).skip(1)));
        }
    }
    assert(internal_at(s, path) == internal_at(c, q));
    if s->color != 0 {
        assert(color_at(s, path.take(0)) != 0);
        assert(conflicts(s, path));
    }
    if conflicts(c, q) {
        if exists|i: int| 0 <= i < q.len() && color_at(c, q.take(i)) != 0 {
            let i = choose|i: int| 0 <= i < q.len() && color_at(c, q.take(i)) != 0;
            assert(color_at(s, path.take(i + 1)) != 0);
            assert(conflicts(s, path));
        } else {
            assert(conflicts(s, path));
        }
    }
    if conflicts(s, path) && s->color == 0 {
        if exists|i: int| 0 <= i < path.len() && color_at(s, path.take(i)) != 0 {
            let i = choose|i: int| 0 <= i < path.len() && color_at(s, path.take(i)) != 0;
            assert(i > 0);
            assert(color_at(c, q.take(i - 1)) != 0);
            assert(conflicts(c, q));
        } else {
            assert(conflicts(c, q));
        }
    }
}

/// Returns the bit of `o` at position `j`, most significant first.
fn bit_of(o: u8, j: usize) -> (b: bool)
    requires
        j < 8,
    ensures
        b == crate::bits::bit_at(o, j as int),
{
    if j == 0 {
        o / 128 % 2 == 1
    } else if j == 1 {
        o / 64 % 2 == 1
    } else if j == 2 {
        o / 32 % 2 == 1
    } else if j == 3 {
        o / 16 % 2 == 1
    } else if j == 4 {
        o / 8 % 2 == 1
    } else if j == 5 {
        o / 4 % 2 == 1
    } else if j == 6 {
        o / 2 % 2 == 1
    } else {
        o % 2 == 1
    }
}

/// Descends the first `plen` bits of `octets` from `node` (already `depth`
/// bits deep), creating nodes as needed, and colors the final node.
fn mark_rec(node: &mut Node, octets: &[u8], plen: usize, depth: usize, color: usize, colors: usize) -> (r: Result<(), MarkError>)
    requires
        depth <= plen,
        plen <= octets@.len() * 8,
        1 <= color <= colors,
        colors < usize::MAX,
        old(node).sized(colors as nat),
        old(node).shape() == empty_shape() || shape_wf(old(node).shape(), colors as nat),
    ensures
        final(node).sized(colors as nat),
        (r is Err) == conflicts(old(node).shape(), path_bits(octets@, depth as int, plen as int)),
        r is Err ==> final(node).shape() == old(node).shape(),
        r is Ok ==> shape_wf(final(node).shape(), colors as nat),
        r is Ok ==> leaves(final(node).shape()) <= leaves(old(node).shape()) + 1,
        r is Ok && old(node).shape() == empty_shape() ==> leaves(final(node).shape()) == 1,
        r is Ok ==> forall|p: Seq<bool>|
            #[trigger] color_at(final(node).shape(), p) == (if p == path_bits(
                octets@,
                depth as int,
                plen as int,
            ) {
                color as nat
            } else {
                color_at(old(node).shape(), p)
            }),
    decreases plen - depth,
{
    let ghost rest = path_bits(octets@, depth as int, plen as int);
    let ghost olds = old(node).shape();
    if depth == plen {
        assert(rest =~= Seq::<bool>::empty());
        if node.child0.is_some() || node.child1.is_some() {
            proof {
                assert(rest.len() == 0);
                if node.child0 is Some {
                    lemma_shape_is_node(*node.child0.unwrap());
                    assert(!(*olds->c0 is Absent));
                } else {
                    lemma_shape_is_node(*node.child1.unwrap());
                    assert(!(*olds->c1 is Absent));
                }
                assert(internal_at(olds, rest));
            }
            Err(MarkError::Overlap)
        } else {
            node.color = color;
            assert(!conflicts(olds, rest));
            proof {
                let news = node.shape();
                assert(shape_is_leaf(news));
                assert forall|p: Seq<bool>| #[trigger] color_at(news, p) == (if p == rest {
                    color as nat
                } else {
                    color_at(olds, p)
                }) by {
                    if p.len() == 0 {
                        assert(p =~= rest);
                        assert(color_at(news, p) == color as nat);
                    } else {
                        assert(*news->c0 is Absent && *news->c1 is Absent);
                        assert(*olds->c0 is Absent && *olds->c1 is Absent);
                        assert(color_at(Shape::Absent, p.skip(1)) == 0);
                        assert(color_at(news, p) == 0);
                        assert(color_at(olds, p) == 0);
                    }
                }
            }
            Ok(())
        }
    } else {
        proof {
            assert(rest.len() > 0);
            assert(rest[0] == crate::bits::bit_at(octets@[(depth as int) / 8], (depth as int) % 8));
            lemma_conflicts_step(olds, rest);
            assert(rest.skip(1) =~= path_bits(octets@, depth as int + 1, plen as int));
        }
        if node.color != 0 {
            return Err(MarkError::Overlap);
        }
        let b = bit_of(octets[depth / 8], depth % 8);
        let mut c: Box<Node>;
        let ghost was_fresh: bool;
        if b {
            match node.child1.take() {
                Some(cc) => {
                    c = cc;
                    proof {
                        was_fresh = false;
                    }
                },
                None => {
                    c = Box::new(Node::new(colors));
                    proof {
                        was_fresh = true;
                    }
                },
            }
        } else {
            match node.child0.take() {
                Some(cc) => {
                    c = cc;
                    proof {
                        was_fresh = false;
                    }
                },
                None => {
                    c = Box::new(Node::new(colors));
                    proof {
                        was_fresh = true;
                    }
                },
            }
        }
        let ghost oldc = c.shape();
        proof {
            if was_fresh {
                lemma_empty_quiet(rest.skip(1));
                assert(!conflicts(oldc, rest.skip(1)));
            } else {
                assert(oldc == child_of(olds, rest[0]));
            }
        }
        let r = mark_rec(&mut *c, octets, plen, depth + 1, color, colors);
        if b {
            node.child1 = Some(c);
        } else {
            node.child0 = Some(c);
        }
        proof {
            let news = node.shape();
            let ghost newc = if b { *news->c1 } else { *news->c0 };
            if r is Err {
                assert(!was_fresh);
                assert(news =~= olds);
            } else {
                assert(!conflicts(olds, rest));
                assert forall|p: Seq<bool>| #[trigger] color_at(news, p) == (if p == rest {
                    color as nat
                } else {
                    color_at(olds, p)
                }) by {
                    if p.len() == 0 {
                        assert(color_at(news, p) == olds->color);
                    } else {
                        let q = p.skip(1);
                        if p[0] == rest[0] {
                            assert(color_at(news, p) == color_at(newc, q));
                            if q == rest.skip(1) {
                                assert forall|i: int| 0 <= i < p.len() implies p[i] == rest[i] by {
                                    if i >= 1 {
                                        assert(p[i] == q[i - 1]);
                                        assert(rest[i] == rest.skip(1)[i - 1]);
                                    }
                                }
                                assert(p =~= rest);
                            } else {
                                assert(p != rest);
                                if was_fresh {
                                    lemma_empty_quiet(q);
                                    assert(color_at(olds, p) == 0);
                                    assert(color_at(oldc, q) == 0);
                                } else {
                                    assert(color_at(olds, p) == color_at(oldc, q));
                                }
                            }
                        } else {
                            assert(p != rest);
                            assert(color_at(news, p) == color_at(olds, p));
                        }
                    }
                }
                assert(news->color == 0);
                lemma_shape_is_node(*c);
                assert(newc == c.shape());
                assert(!(newc is Absent));
                if rest[0] {
                    assert(*news->c0 == *olds->c0);
                    assert(*news->c1 == newc);
                } else {
                    assert(*news->c1 == *olds->c1);
                    assert(*news->c0 == newc);
                }
                assert(!shape_is_leaf(news));
                assert(shape_wf(newc, colors as nat));
                let other = if rest[0] {
                    *olds->c0
                } else {
                    *olds->c1
                };
                if olds == empty_shape() {
                    assert(other is Absent);
                    assert(shape_wf(other, colors as nat));
                } else {
                    assert(shape_wf(olds, colors as nat));
                    assert(!shape_is_leaf(olds));
                    assert(shape_wf(other, colors as nat));
                }
                assert(shape_wf(news, colors as nat));
                assert(leaves(news) == leaves(newc) + leaves(other));
                if was_fresh {
                    assert(leaves(newc) == 1);
                    if *olds->c0 is Absent && *olds->c1 is Absent {
                        assert(leaves(olds) == 1);
                        assert(leaves(news) == 1);
                    } else {
                        assert(child_of(olds, rest[0]) is Absent);
                        assert(leaves(child_of(olds, rest[0])) == 0);
                        assert(leaves(olds) == leaves(other));
                        assert(leaves(news) <= leaves(olds) + 1);
                    }
                } else {
                    assert(oldc == child_of(olds, rest[0]));
                    assert(!(oldc is Absent));
                    assert(leaves(olds) == leaves(oldc) + leaves(other));
                    assert(leaves(newc) <= leaves(oldc) + 1);
                    assert(leaves(news) <= leaves(olds) + 1);
                }
            }
        }
        r
    }
}

/// Sum over the present children of the routes needed under inherited
/// color `c`: the cost at an internal node of emitting nothing.
pub open spec fn base(s: Shape, c: nat, k: nat) -> nat
    decreases s, 0int, 0int,
{
    match s {
        Shape::Absent => 0,
        Shape::Node { color, c0, c1 } => nr(*c0, c, k) + nr(*c1, c, k),
    }
}

/// The least index in `[0, i]` minimizing `base`, ties to the lowest index.
pub open spec fn minidx_upto(s: Shape, i: nat, k: nat) -> nat
    decreases s, 1int, i,
{
    if i == 0 {
        0
    } else {
        let m = minidx_upto(s, (i - 1) as nat, k);
        if base(s, i, k) < base(s, m, k) {
            i
        } else {
            m
        }
    }
}

/// The minimum number of routes the subtree at `s` needs when the color
/// inherited from above is `c`, with colors drawn from `[0, k]`.
pub open spec fn nr(s: Shape, c: nat, k: nat) -> nat
    decreases s, 2int, 0int,
{
    match s {
        Shape::Absent => 0,
        Shape::Node { color, c0, c1 } => {
            if *c0 is Absent && *c1 is Absent {
                if c == color {
                    0
                } else {
                    1
                }
            } else {
                let m = minidx_upto(s, k, k);
                let bc = base(s, c, k);
                let bm = base(s, m, k);
                if bc <= bm + 1 {
                    bc
                } else {
                    bm + 1
                }
            }
        },
    }
}

/// Whether a route is emitted at `s` under inherited color `c`, and if so
/// to which color the subtree switches.
pub open spec fn decide(s: Shape, c: nat, k: nat) -> Option<nat>
    decreases s, 3int, 0int,
{
    match s {
        Shape::Absent => None,
        Shape::Node { color, c0, c1 } => {
            if *c0 is Absent && *c1 is Absent {
                if c == color {
                    None
                } else {
                    Some(color)
                }
            } else {
                let m = minidx_upto(s, k, k);
                if base(s, c, k) <= base(s, m, k) + 1 {
                    None
                } else {
                    Some(m)
                }
            }
        },
    }
}

/// An executable decision agrees with the ghost one.
pub open spec fn opt_eq(a: Option<usize>, b: Option<nat>) -> bool {
    match a {
        Option::Some(x) => b is Some && x as nat == b->0,
        Option::None => b is None,
    }
}

/// The subtree needs no more routes than it has leaves.
pub proof fn lemma_nr_le_leaves(s: Shape, c: nat, k: nat)
    ensures
        nr(s, c, k) <= leaves(s),
        base(s, c, k) <= leaves(s),
    decreases s,
{
    match s {
        Shape::Absent => {},
        Shape::Node { color, c0, c1 } => {
            lemma_nr_le_leaves(*c0, c, k);
            lemma_nr_le_leaves(*c1, c, k);
            if !(*c0 is Absent && *c1 is Absent) {
                let m = minidx_upto(s, k, k);
                if base(s, c, k) > base(s, m, k) + 1 {
                }
            } else {
                assert(leaves(*c0) == 0 && leaves(*c1) == 0);
            }
        },
    }
}

/// The minimizing index is no larger than the scanned range.
pub proof fn lemma_minidx_le(s: Shape, i: nat, k: nat)
    ensures
        minidx_upto(s, i, k) <= i,
    decreases i,
{
    if i > 0 {
        lemma_minidx_le(s, (i - 1) as nat, k);
    }
}


/// The route list emitted below `s` (placed at `path`) under inherited
/// color `c`: a route at a node exactly where `decide` says so, then the
/// children under the switched color.
pub open spec fn gen(s: Shape, c: nat, k: nat, path: Seq<bool>) -> Seq<(Seq<bool>, nat)>
    decreases s,
{
    match s {
        Shape::Absent => seq![],
        Shape::Node { color, c0, c1 } => {
            let c2 = match decide(s, c, k) {
                Option::Some(d) => d,
                Option::None => c,
            };
            let here: Seq<(Seq<bool>, nat)> = match decide(s, c, k) {
                Option::Some(d) => seq![(path, d)],
                Option::None => seq![],
            };
            here + gen(*c0, c2, k, path.push(false)) + gen(*c1, c2, k, path.push(true))
        },
    }
}

/// The whole route list of a trie: empty for an empty trie; with the
/// default route suppressed, only the children are walked, so no route can
/// sit at the empty path.
pub open spec fn tree_gen(s: Shape, k: nat, no_default: bool) -> Seq<(Seq<bool>, nat)> {
    if s == empty_shape() {
        seq![]
    } else if no_default {
        gen(child_of(s, false), 0, k, seq![false]) + gen(child_of(s, true), 0, k, seq![true])
    } else {
        gen(s, 0, k, Seq::empty())
    }
}

/// The mathematical value of an emitted (path, color) vector.
pub open spec fn pairs_view(v: Seq<(Vec<bool>, usize)>) -> Seq<(Seq<bool>, nat)> {
    v.map_values(|e: (Vec<bool>, usize)| (e.0@, e.1 as nat))
}

/// Copies a bit vector.
fn clone_bits(v: &Vec<bool>) -> (r: Vec<bool>)
    ensures
        r@ == v@,
{
    let mut r: Vec<bool> = Vec::new();
    let mut i: usize = 0;
    while i < v.len()
        invariant
            i <= v@.len(),
            r@ == v@.take(i as int),
        decreases v@.len() - i,
    {
        r.push(v[i]);
        proof {
            assert(v@.take(i as int).push(v@[i as int]) =~= v@.take(i as int + 1));
        }
        i = i + 1;
    }
    proof {
        assert(v@.take(v@.len() as int) =~= v@);
    }
    r
}


/// Inheriting the reserved color 0 is never cheaper than any other color:
/// color 0 marks no leaf, so every leaf must be routed under it.
pub proof fn lemma_zero_worst(s: Shape, c: nat, k: nat)
    requires
        shape_wf(s, k),
    ensures
        nr(s, c, k) <= nr(s, 0, k),
        base(s, c, k) <= base(s, 0, k),
    decreases s,
{
    match s {
        Shape::Absent => {},
        Shape::Node { color, c0, c1 } => {
            if *c0 is Absent && *c1 is Absent {
                assert(color != 0);
            } else {
                lemma_zero_worst(*c0, c, k);
                lemma_zero_worst(*c1, c, k);
            }
        },
    }
}

/// The scanned minimum really is the minimum, and sits at the lowest index
/// among ties.
pub proof fn lemma_minidx_min(s: Shape, i: nat, k: nat)
    ensures
        forall|c: nat| c <= i ==> base(s, minidx_upto(s, i, k), k) <= #[trigger] base(s, c, k),
        forall|c: nat|
            c < minidx_upto(s, i, k) ==> base(s, minidx_upto(s, i, k), k) < #[trigger] base(s, c, k),
        minidx_upto(s, i, k) <= i,
    decreases i,
{
    if i > 0 {
        lemma_minidx_min(s, (i - 1) as nat, k);
    }
}


/// DP monotonicity: switching colors costs at most one route, so no entry
/// of `num_routes` exceeds any other by more than one.
pub proof fn lemma_dp_monotonic(s: Shape, c: nat, c2: nat, k: nat)
    requires
        c <= k,
        c2 <= k,
    ensures
        nr(s, c, k) <= nr(s, c2, k) + 1,
{
    match s {
        Shape::Absent => {},
        Shape::Node { color, c0, c1 } => {
            if *c0 is Absent && *c1 is Absent {
            } else {
                let m = minidx_upto(s, k, k);
                lemma_minidx_min(s, k, k);
                assert(base(s, m, k) <= base(s, c2, k));
            }
        },
    }
}

/// Every route the walk emits sits on an existing node at or below `path`,
/// and carries a real gateway color.
pub proof fn lemma_gen_in_range(s: Shape, c: nat, k: nat, path: Seq<bool>)
    requires
        shape_wf(s, k),
        c <= k,
    ensures
        forall|e: (Seq<bool>, nat)| #[trigger] gen(s, c, k, path).contains(e) ==> {
            &&& 1 <= e.1 <= k
            &&& path.is_prefix_of(e.0)
            &&& node_at(s, e.0.skip(path.len() as int))
        },
    decreases s,
{
    match s {
        Shape::Absent => {},
        Shape::Node { color, c0, c1 } => {
            let dcd = decide(s, c, k);
            let c2: nat = match dcd {
                Option::Some(d) => d,
                Option::None => c,
            };
            if *c0 is Absent && *c1 is Absent {
                assert(1 <= color <= k);
            } else {
                let m = minidx_upto(s, k, k);
                lemma_minidx_min(s, k, k);
                if dcd is Some {
                    lemma_zero_worst(s, c, k);
                    assert(base(s, m, k) <= base(s, 0, k));
                    assert(m != 0);
                    assert(1 <= c2 <= k);
                }
            }
            lemma_gen_in_range(*c0, c2, k, path.push(false));
            lemma_gen_in_range(*c1, c2, k, path.push(true));
            assert forall|e: (Seq<bool>, nat)| #[trigger] gen(s, c, k, path).contains(e) implies {
                &&& 1 <= e.1 <= k
                &&& path.is_prefix_of(e.0)
                &&& node_at(s, e.0.skip(path.len() as int))
            } by {
                let here: Seq<(Seq<bool>, nat)> = match dcd {
                    Option::Some(d) => seq![(path, d)],
                    Option::None => seq![],
                };
                let g0 = gen(*c0, c2, k, path.push(false));
                let g1 = gen(*c1, c2, k, path.push(true));
                assert(gen(s, c, k, path) == here + g0 + g1);
                let idx = choose|idx: int| 0 <= idx < gen(s, c, k, path).len() && gen(s, c, k, path)[idx] == e;
                if idx < here.len() {
                    assert(e == (path, c2));
                    assert(e.0.skip(path.len() as int) =~= Seq::<bool>::empty());
                    assert(path.is_prefix_of(path));
                } else if idx < here.len() + g0.len() {
                    assert(g0[idx - here.len()] == e);
                    assert(g0.contains(e));
                    assert(path.push(false).is_prefix_of(e.0));
                    assert(path.is_prefix_of(path.push(false)));
                    assert(path.is_prefix_of(e.0));
                    let q = e.0.skip(path.len() as int);
                    assert(node_at(*c0, e.0.skip(path.len() as int + 1)));
                    assert(q.len() > 0);
                    let pl = path.len() as int;
                    assert(path.push(false) == e.0.subrange(0, pl + 1));
                    assert(e.0.subrange(0, pl + 1)[pl] == e.0[pl]);
                    assert(path.push(false)[pl] == false);
                    assert(q[0] == e.0[pl]);
                    assert(q[0] == false);
                    assert(q.skip(1) =~= e.0.skip(path.len() as int + 1));
                    assert(node_at(s, q));
                } else {
                    assert(g1[idx - here.len() - g0.len()] == e);
                    assert(g1.contains(e));
                    assert(path.push(true).is_prefix_of(e.0));
                    assert(path.is_prefix_of(path.push(true)));
                    assert(path.is_prefix_of(e.0));
                    let q = e.0.skip(path.len() as int);
                    assert(node_at(*c1, e.0.skip(path.len() as int + 1)));
                    assert(q.len() > 0);
                    let pl = path.len() as int;
                    assert(path.push(true) == e.0.subrange(0, pl + 1));
                    assert(e.0.subrange(0, pl + 1)[pl] == e.0[pl]);
                    assert(path.push(true)[pl] == true);
                    assert(q[0] == e.0[pl]);
                    assert(q[0] == true);
                    assert(q.skip(1) =~= e.0.skip(path.len() as int + 1));
                    assert(node_at(s, q));
                }
            }
        },
    }
}

/// In a well-formed trie every existing node lies on the way to a mark, so
/// path lengths are bounded by the longest marked prefix.
pub proof fn lemma_node_at_marked(s: Shape, q: Seq<bool>, k: nat)
    requires
        shape_wf(s, k),
        node_at(s, q),
    ensures
        exists|r: Seq<bool>| q.is_prefix_of(r) && #[trigger] color_at(s, r) != 0,
    decreases s, q.len(),
{
    match s {
        Shape::Absent => {},
        Shape::Node { color, c0, c1 } => {
            if q.len() == 0 {
                if *c0 is Absent && *c1 is Absent {
                    assert(color_at(s, q) != 0);
                    assert(q.is_prefix_of(q));
                } else if *c0 is Node {
                    lemma_node_at_marked(*c0, Seq::empty(), k);
                    let r0 = choose|r0: Seq<bool>|
                        Seq::<bool>::empty().is_prefix_of(r0) && #[trigger] color_at(*c0, r0) != 0;
                    let r = seq![false] + r0;
                    assert(r.skip(1) =~= r0);
                    assert(color_at(s, r) != 0);
                    assert(q.is_prefix_of(r));
                } else {
                    lemma_node_at_marked(*c1, Seq::empty(), k);
                    let r1 = choose|r1: Seq<bool>|
                        Seq::<bool>::empty().is_prefix_of(r1) && #[trigger] color_at(*c1, r1) != 0;
                    let r = seq![true] + r1;
                    assert(r.skip(1) =~= r1);
                    assert(color_at(s, r) != 0);
                    assert(q.is_prefix_of(r));
                }
            } else {
                let child = child_of(s, q[0]);
                assert(node_at(child, q.skip(1)));
                assert(shape_wf(child, k));
                lemma_node_at_marked(child, q.skip(1), k);
                let r0 = choose|r0: Seq<bool>|
                    q.skip(1).is_prefix_of(r0) && #[trigger] color_at(child, r0) != 0;
                let r = seq![q[0]] + r0;
                assert(r.skip(1) =~= r0);
                assert(color_at(s, r) != 0);
                assert forall|j: int| 0 <= j < q.len() implies q[j] == r[j] by {
                    if j >= 1 {
                        assert(q.skip(1)[j - 1] == r0[j - 1]);
                    }
                }
                assert(q.is_prefix_of(r));
            }
        },
    }
}

struct Node {
    child0: Option<Box<Node>>,
    child1: Option<Box<Node>>,
    color: usize,
    num_routes: Vec<usize>,
    decision: Vec<Option<usize>>,
}

impl Node {
    /// The ghost structure of this node: children and colors only.
    spec fn shape(&self) -> Shape
        decreases self,
    {
        Shape::Node {
            color: self.color as nat,
            c0: match self.child0 {
                Option::Some(b) => Box::new(b.shape()),
                Option::None => Box::new(Shape::Absent),
            },
            c1: match self.child1 {
                Option::Some(b) => Box::new(b.shape()),
                Option::None => Box::new(Shape::Absent),
            },
        }
    }

    /// Every node in the subtree carries DP vectors of length `k + 1`.
    spec fn sized(&self, k: nat) -> bool
        decreases self,
    {
        &&& self.num_routes@.len() == k + 1
        &&& self.decision@.len() == k + 1
        &&& match self.child0 {
            Option::Some(b) => b.sized(k),
            Option::None => true,
        }
        &&& match self.child1 {
            Option::Some(b) => b.sized(k),
            Option::None => true,
        }
    }

    fn new(colors: usize) -> (r: Node)
        requires
            colors < usize::MAX,
        ensures
            r.shape() == empty_shape(),
            r.sized(colors as nat),
    {
        Node {
            child0: None,
            child1: None,
            color: 0,
            num_routes: vec![usize::MAX; colors + 1],
            decision: vec![None; colors + 1],
        }
    }

    /// The dynamic-programming fields of every node in the subtree hold the
    /// values of `nr` and `decide` for its shape.
    spec fn dp_done(&self, k: nat) -> bool
        decreases self,
    {
        &&& self.num_routes@.len() == k + 1
        &&& self.decision@.len() == k + 1
        &&& forall|c: int|
            0 <= c <= k ==> (#[trigger] self.num_routes@[c]) as nat == nr(self.shape(), c as nat, k)
        &&& forall|c: int|
            0 <= c <= k ==> opt_eq(#[trigger] self.decision@[c], decide(self.shape(), c as nat, k))
        &&& match self.child0 {
            Option::Some(b) => b.dp_done(k),
            Option::None => true,
        }
        &&& match self.child1 {
            Option::Some(b) => b.dp_done(k),
            Option::None => true,
        }
    }

    /// Computes `num_routes` and `decision` bottom-up for the whole subtree.
    #[verifier::loop_isolation(false)]
    fn dp(&mut self, colors: usize)
        requires
            colors < usize::MAX,
            old(self).sized(colors as nat),
            shape_wf(old(self).shape(), colors as nat),
            leaves(old(self).shape()) + 1 <= usize::MAX,
        ensures
            final(self).shape() == old(self).shape(),
            final(self).sized(colors as nat),
            final(self).dp_done(colors as nat),
        decreases *old(self),
    {
        let ghost k = colors as nat;
        let ghost s0 = old(self).shape();
        let n = self.num_routes.len();
        if self.child0.is_none() && self.child1.is_none() {
            proof {
                assert(*s0->c0 is Absent && *s0->c1 is Absent);
            }
            let leaf_color = self.color;
            let mut i: usize = 0;
            while i < n
                invariant
                    n == colors + 1,
                    i <= n,
                    self.color == leaf_color,
                    self.child0 is None,
                    self.child1 is None,
                    self.shape() == s0,
                    *s0->c0 is Absent && *s0->c1 is Absent,
                    s0->color == leaf_color as nat,
                    self.num_routes@.len() == n,
                    self.decision@.len() == n,
                    forall|c: int|
                        0 <= c < i ==> (#[trigger] self.num_routes@[c]) as nat == nr(s0, c as nat, k),
                    forall|c: int|
                        0 <= c < i ==> opt_eq(#[trigger] self.decision@[c], decide(s0, c as nat, k)),
                decreases n - i,
            {
                if i == leaf_color {
                    self.num_routes.set(i, 0);
                    self.decision.set(i, None);
                } else {
                    self.num_routes.set(i, 1);
                    self.decision.set(i, Some(leaf_color));
                }
                i = i + 1;
                proof {
                    lemma_shape_stable(*self, s0);
                }
            }
            proof {
                assert(self.dp_done(k));
                lemma_dp_done_sized(*self, k);
            }
        } else {
            proof {
                if self.child0 is Some {
                    lemma_shape_is_node(*self.child0.unwrap());
                } else {
                    lemma_shape_is_node(*self.child1.unwrap());
                }
                assert(!shape_is_leaf(s0));
                assert(s0->color == 0);
            }
            match self.child0.take() {
                Some(mut b) => {
                    proof {
                        assert(b.shape() == *s0->c0);
                        assert(leaves(*s0->c0) <= leaves(s0));
                    }
                    b.dp(colors);
                    self.child0 = Some(b);
                },
                None => {},
            }
            proof {
                lemma_shape_stable(*self, s0);
            }
            match self.child1.take() {
                Some(mut b) => {
                    proof {
                        assert(b.shape() == *s0->c1);
                        assert(leaves(*s0->c1) <= leaves(s0));
                    }
                    b.dp(colors);
                    self.child1 = Some(b);
                },
                None => {},
            }
            proof {
                lemma_shape_stable(*self, s0);
                assert(self.shape() == s0);
            }
            let mut i: usize = 0;
            while i < n
                invariant
                    n == colors + 1,
                    i <= n,
                    self.shape() == s0,
                    !shape_is_leaf(s0),
                    s0 is Node,
                    self.color as nat == s0->color,
                    self.num_routes@.len() == n,
                    self.decision@.len() == n,
                    leaves(s0) + 1 <= usize::MAX,
                    children_done(*self, k),
                    forall|c: int|
                        0 <= c < i ==> (#[trigger] self.num_routes@[c]) as nat == base(s0, c as nat, k),
                    forall|c: int| 0 <= c < i ==> #[trigger] self.decision@[c] is None,
                decreases n - i,
            {
                let mut routes: usize = 0;
                proof {
                    lemma_nr_le_leaves(*s0->c0, i as nat, k);
                    lemma_nr_le_leaves(*s0->c1, i as nat, k);
                    assert(leaves(s0) == leaves(*s0->c0) + leaves(*s0->c1));
                }
                match &self.child0 {
                    Some(b) => {
                        proof {
                            assert(self.child0 is Some);
                            assert(**b == *self.child0.unwrap());
                            assert((**b).dp_done(k));
                            assert(*s0->c0 == b.shape());
                            assert(b.num_routes@[i as int] as nat == nr(b.shape(), i as nat, k));
                        }
                        routes = routes + b.num_routes[i];
                        proof {
                            assert(routes as nat == nr(*s0->c0, i as nat, k));
                        }
                    },
                    None => {
                        proof {
                            assert(*s0->c0 is Absent);
                            assert(nr(*s0->c0, i as nat, k) == 0);
                        }
                    },
                }
                match &self.child1 {
                    Some(b) => {
                        proof {
                            assert(self.child1 is Some);
                            assert(**b == *self.child1.unwrap());
                            assert((**b).dp_done(k));
                            assert(*s0->c1 == b.shape());
                            assert(b.num_routes@[i as int] as nat == nr(b.shape(), i as nat, k));
                        }
                        routes = routes + b.num_routes[i];
                    },
                    None => {
                        proof {
                            assert(*s0->c1 is Absent);
                            assert(nr(*s0->c1, i as nat, k) == 0);
                        }
                    },
                }
                proof {
                    assert(routes as nat == base(s0, i as nat, k));
                }
                self.num_routes.set(i, routes);
                self.decision.set(i, None);
                i = i + 1;
                proof {
                    lemma_shape_stable(*self, s0);
                }
            }
            let mut m: usize = 0;
            let mut j: usize = 1;
            while j < n
                invariant
                    n == colors + 1,
                    1 <= j <= n,
                    m < j,
                    self.shape() == s0,
                    !shape_is_leaf(s0),
                    s0 is Node,
                    self.color as nat == s0->color,
                    self.num_routes@.len() == n,
                    self.decision@.len() == n,
                    leaves(s0) + 1 <= usize::MAX,
                    children_done(*self, k),
                    forall|c: int|
                        0 <= c <= colors ==> (#[trigger] self.num_routes@[c]) as nat == base(s0, c as nat, k),
                    forall|c: int| 0 <= c <= colors ==> #[trigger] self.decision@[c] is None,
                    m as nat == minidx_upto(s0, (j - 1) as nat, k),
                decreases n - j,
            {
                if self.num_routes[j] < self.num_routes[m] {
                    m = j;
                }
                j = j + 1;
            }
            proof {
                assert(m as nat == minidx_upto(s0, k, k));
                lemma_nr_le_leaves(s0, m as nat, k);
            }
            let best = self.num_routes[m];
            let mut i: usize = 0;
            while i < n
                invariant
                    n == colors + 1,
                    i <= n,
                    self.shape() == s0,
                    !shape_is_leaf(s0),
                    s0 is Node,
                    self.color as nat == s0->color,
                    self.num_routes@.len() == n,
                    self.decision@.len() == n,
                    children_done(*self, k),
                    m as nat == minidx_upto(s0, k, k),
                    best as nat == base(s0, m as nat, k),
                    best + 1 <= usize::MAX,
                    m < n,
                    forall|c: int|
                        i <= c <= colors ==> (#[trigger] self.num_routes@[c]) as nat == base(s0, c as nat, k),
                    forall|c: int| i <= c <= colors ==> #[trigger] self.decision@[c] is None,
                    forall|c: int|
                        0 <= c < i ==> (#[trigger] self.num_routes@[c]) as nat == nr(s0, c as nat, k),
                    forall|c: int|
                        0 <= c < i ==> opt_eq(#[trigger] self.decision@[c], decide(s0, c as nat, k)),
                decreases n - i,
            {
                if self.num_routes[i] > best + 1 {
                    self.num_routes.set(i, best + 1);
                    self.decision.set(i, Some(m));
                }
                i = i + 1;
                proof {
                    lemma_shape_stable(*self, s0);
                }
            }
            proof {
                assert(self.dp_done(k));
                lemma_dp_done_sized(*self, k);
            }
        }
    }

    /// Walks the subtree top-down, appending one route wherever the DP
    /// decision switches the inherited color.
    fn generate(&self, colors: usize, color: usize, bits: &mut Vec<bool>, out: &mut Vec<(Vec<bool>, usize)>)
        requires
            self.dp_done(colors as nat),
            shape_wf(self.shape(), colors as nat),
            color <= colors,
        ensures
            final(bits)@ == old(bits)@,
            pairs_view(final(out)@) == pairs_view(old(out)@) + gen(
                self.shape(),
                color as nat,
                colors as nat,
                old(bits)@,
            ),
        decreases *self,
    {
        let ghost k = colors as nat;
        let ghost s = self.shape();
        let ghost path = old(bits)@;
        let ghost dcd = decide(s, color as nat, k);
        proof {
            assert(opt_eq(self.decision@[color as int], dcd));
        }
        let mut c = color;
        if let Some(d) = self.decision[color] {
            proof {
                assert(dcd is Some && d as nat == dcd->0);
                if shape_is_leaf(s) {
                    assert(dcd->0 == s->color);
                    assert(s->color <= k);
                } else {
                    lemma_minidx_le(s, k, k);
                }
                assert(d <= colors);
            }
            out.push((clone_bits(bits), d));
            c = d;
            proof {
                assert(pairs_view(out@) =~= pairs_view(old(out)@) + seq![(path, d as nat)]);
            }
        }
        let ghost c2 = c as nat;
        let ghost out1 = pairs_view(out@);
        let ghost here: Seq<(Seq<bool>, nat)> = match dcd {
            Option::Some(d) => seq![(path, d)],
            Option::None => seq![],
        };
        proof {
            assert(out1 =~= pairs_view(old(out)@) + here);
        }
        match &self.child0 {
            Some(b) => {
                proof {
                    assert(**b == *self.child0.unwrap());
                    assert((**b).dp_done(k));
                    assert(b.shape() == *s->c0);
                    assert(shape_wf(b.shape(), k));
                }
                bits.push(false);
                proof {
                    assert(bits@ =~= path.push(false));
                }
                b.generate(colors, c, bits, out);
                bits.pop();
                proof {
                    assert(bits@ =~= path);
                }
            },
            None => {
                proof {
                    assert(*s->c0 is Absent);
                    assert(gen(*s->c0, c2, k, path.push(false)) =~= Seq::<(Seq<bool>, nat)>::empty());
                }
            },
        }
        let ghost out2 = pairs_view(out@);
        proof {
            assert(out2 =~= out1 + gen(*s->c0, c2, k, path.push(false)));
        }
        match &self.child1 {
            Some(b) => {
                proof {
                    assert(**b == *self.child1.unwrap());
                    assert((**b).dp_done(k));
                    assert(b.shape() == *s->c1);
                    assert(shape_wf(b.shape(), k));
                }
                bits.push(true);
                proof {
                    assert(bits@ =~= path.push(true));
                }
                b.generate(colors, c, bits, out);
                bits.pop();
                proof {
                    assert(bits@ =~= path);
                }
            },
            None => {
                proof {
                    assert(*s->c1 is Absent);
                    assert(gen(*s->c1, c2, k, path.push(true)) =~= Seq::<(Seq<bool>, nat)>::empty());
                }
            },
        }
        proof {
            assert(pairs_view(out@) =~= out2 + gen(*s->c1, c2, k, path.push(true)));
            assert(pairs_view(out@) =~= pairs_view(old(out)@) + (here + gen(*s->c0, c2, k, path.push(false)) + gen(*s->c1, c2, k, path.push(true))));
            assert(gen(s, color as nat, k, path) == here + gen(*s->c0, c2, k, path.push(false)) + gen(*s->c1, c2, k, path.push(true)));
        }
    }
}

/// A finished DP pass pins the vector lengths everywhere in the subtree.
proof fn lemma_dp_done_sized(n: Node, k: nat)
    requires
        n.dp_done(k),
    ensures
        n.sized(k),
    decreases n,
{
    match n.child0 {
        Option::Some(b) => lemma_dp_done_sized(*b, k),
        Option::None => {},
    }
    match n.child1 {
        Option::Some(b) => lemma_dp_done_sized(*b, k),
        Option::None => {},
    }
}

/// Both children, where present, have finished their DP pass.
spec fn children_done(n: Node, k: nat) -> bool {
    &&& match n.child0 {
        Option::Some(b) => b.dp_done(k),
        Option::None => true,
    }
    &&& match n.child1 {
        Option::Some(b) => b.dp_done(k),
        Option::None => true,
    }
}

/// The ghost structure only reads the children and the color, so edits to
/// the DP vectors leave it unchanged.
proof fn lemma_shape_stable(a: Node, s: Shape)
    requires
        a.color as nat == s->color,
        s is Node,
        (match a.child0 {
            Option::Some(b) => !(*s->c0 is Absent) && *s->c0 == b.shape(),
            Option::None => *s->c0 is Absent,
        }),
        (match a.child1 {
            Option::Some(b) => !(*s->c1 is Absent) && *s->c1 == b.shape(),
            Option::None => *s->c1 is Absent,
        }),
    ensures
        a.shape() == s,
{
    assert(a.shape() =~= s);
}



/// A named gateway and the countries routed to it.
pub struct GatewayMapping {
    /// The gateway's name, carried into each emitted route.
    pub gateway: String,
    /// Two-letter country codes assigned to this gateway.
    pub countries: Vec<String>,
}


/// The gateway holds this country code.
pub open spec fn gw_has(g: GatewayMapping, c: Seq<char>) -> bool {
    exists|j: int| 0 <= j < g.countries@.len() && g.countries@[j]@ == c
}

/// Whether this gateway's country list holds `c`.
fn contains_country(g: &GatewayMapping, c: &String) -> (r: bool)
    ensures
        r == gw_has(*g, c@),
{
    let mut j: usize = 0;
    while j < g.countries.len()
        invariant
            j <= g.countries@.len(),
            forall|x: int| 0 <= x < j ==> g.countries@[x]@ != c@,
        decreases g.countries@.len() - j,
    {
        if g.countries[j] == *c {
            proof {
                assert(gw_has(*g, c@));
            }
            return true;
        }
        j = j + 1;
    }
    false
}

/// The index of the first gateway whose country list holds `country`, the
/// rule by which prefixes are assigned: earlier gateways win, a country in
/// no list is unassigned.
pub fn gateway_for_country(gateways: &[GatewayMapping], country: &String) -> (r: Option<usize>)
    ensures
        match r {
            Option::Some(i) => i < gateways@.len() && gw_has(gateways@[i as int], country@)
                && forall|x: int| 0 <= x < i ==> !gw_has(gateways@[x], country@),
            Option::None => forall|x: int|
                0 <= x < gateways@.len() ==> !gw_has(gateways@[x], country@),
        },
{
    let mut i: usize = 0;
    while i < gateways.len()
        invariant
            i <= gateways@.len(),
            forall|x: int| 0 <= x < i ==> !gw_has(gateways@[x], country@),
        decreases gateways@.len() - i,
    {
        if contains_country(&gateways[i], country) {
            return Some(i);
        }
        i = i + 1;
    }
    None
}

/// One emitted IPv4 route.
pub struct Ipv4Route {
    /// Network address, four octets.
    pub prefix: Vec<u8>,
    /// Netmask: the top `length` bits set, four octets.
    pub mask: Vec<u8>,
    /// Prefix length in bits.
    pub length: u8,
    /// Name of the gateway the route points at.
    pub gateway: String,
}

/// One emitted IPv6 route.
pub struct Ipv6Route {
    /// Network address, eight 16-bit segments.
    pub prefix: Vec<u16>,
    /// Netmask: the top `length` bits set, eight 16-bit segments.
    pub mask: Vec<u16>,
    /// Prefix length in bits.
    pub length: u8,
    /// Name of the gateway the route points at.
    pub gateway: String,
}

/// `p` padded with zero bits to width `w`.
pub open spec fn padded_bits(p: Seq<bool>, w: int) -> Seq<bool> {
    Seq::new(w as nat, |i: int| i < p.len() && p[i])
}

/// The mask of a length-`l` prefix at width `w`: the top `l` bits set.
pub open spec fn mask_bits(l: int, w: int) -> Seq<bool> {
    Seq::new(w as nat, |i: int| i < l)
}

/// 32 bits packed into four octets.
pub open spec fn v4_octets(b: Seq<bool>) -> Seq<u8> {
    Seq::new(4, |j: int| crate::bits::octet_of_bits(b.subrange(8 * j, 8 * j + 8)))
}

/// 128 bits packed into eight segments.
pub open spec fn v6_segments(b: Seq<bool>) -> Seq<u16> {
    Seq::new(8, |j: int| crate::bits::segment_of_bits(b.subrange(16 * j, 16 * j + 16)))
}

/// Builds the padded address bits and the mask bits of one route.
#[verifier::loop_isolation(false)]
fn build_width_bits(p: &Vec<bool>, w: usize) -> (r: (Vec<bool>, Vec<bool>))
    requires
        p@.len() <= w,
    ensures
        r.0@ == padded_bits(p@, w as int),
        r.1@ == mask_bits(p@.len() as int, w as int),
{
    let plen = p.len();
    let mut pb: Vec<bool> = Vec::new();
    let mut mb: Vec<bool> = Vec::new();
    let mut t: usize = 0;
    while t < w
        invariant
            t <= w,
            pb@.len() == t,
            mb@.len() == t,
            forall|x: int| 0 <= x < t ==> pb@[x] == (x < p@.len() && p@[x]),
            forall|x: int| 0 <= x < t ==> mb@[x] == (x < p@.len()),
        decreases w - t,
    {
        if t < plen {
            pb.push(p[t]);
        } else {
            pb.push(false);
        }
        mb.push(t < plen);
        t = t + 1;
    }
    proof {
        assert(pb@ =~= padded_bits(p@, w as int));
        assert(mb@ =~= mask_bits(p@.len() as int, w as int));
    }
    (pb, mb)
}

/// Packs 32 bits into four octets.
fn pack_v4(b: &Vec<bool>) -> (r: Vec<u8>)
    requires
        b@.len() == 32,
    ensures
        r@ == v4_octets(b@),
{
    let mut r: Vec<u8> = Vec::new();
    r.push(crate::bits::get_octet(vstd::slice::slice_subrange(b.as_slice(), 0, 8)));
    r.push(crate::bits::get_octet(vstd::slice::slice_subrange(b.as_slice(), 8, 16)));
    r.push(crate::bits::get_octet(vstd::slice::slice_subrange(b.as_slice(), 16, 24)));
    r.push(crate::bits::get_octet(vstd::slice::slice_subrange(b.as_slice(), 24, 32)));
    proof {
        assert(r@ =~= v4_octets(b@));
    }
    r
}

/// Packs 128 bits into eight 16-bit segments.
#[verifier::loop_isolation(false)]
fn pack_v6(b: &Vec<bool>) -> (r: Vec<u16>)
    requires
        b@.len() == 128,
    ensures
        r@ == v6_segments(b@),
{
    let mut r: Vec<u16> = Vec::new();
    let mut j: usize = 0;
    while j < 8
        invariant
            j <= 8,
            r@.len() == j,
            forall|x: int|
                0 <= x < j ==> r@[x] == crate::bits::segment_of_bits(
                    b@.subrange(16 * x, 16 * x + 16),
                ),
        decreases 8 - j,
    {
        r.push(crate::bits::get_segment(vstd::slice::slice_subrange(b.as_slice(), 16 * j, 16 * j + 16)));
        j = j + 1;
    }
    proof {
        assert(r@ =~= v6_segments(b@));
    }
    r
}


/// Every pair a trie emits carries a real gateway color and a path no
/// longer than the longest marked prefix.
proof fn lemma_tree_gen_bounds(s: Shape, k: nat, nd: bool, w: nat)
    requires
        s is Node,
        s == empty_shape() || shape_wf(s, k),
        forall|p: Seq<bool>| #[trigger] color_at(s, p) != 0 ==> p.len() <= w,
    ensures
        forall|i: int| 0 <= i < tree_gen(s, k, nd).len() ==> {
            &&& 1 <= (#[trigger] tree_gen(s, k, nd)[i]).1 <= k
            &&& tree_gen(s, k, nd)[i].0.len() <= w
        },
{
    let gp = tree_gen(s, k, nd);
    if s == empty_shape() {
        assert(gp.len() == 0);
    } else if nd {
        let g0 = gen(child_of(s, false), 0, k, seq![false]);
        let g1 = gen(child_of(s, true), 0, k, seq![true]);
        assert(shape_wf(child_of(s, false), k) && shape_wf(child_of(s, true), k)) by {
            if shape_is_leaf(s) {
                assert(*s->c0 is Absent && *s->c1 is Absent);
                assert(shape_wf(Shape::Absent, k));
            } else {
                assert(shape_wf(s, k));
            }
        }
        lemma_gen_in_range(child_of(s, false), 0, k, seq![false]);
        lemma_gen_in_range(child_of(s, true), 0, k, seq![true]);
        assert forall|i: int| 0 <= i < gp.len() implies {
            &&& 1 <= (#[trigger] gp[i]).1 <= k
            &&& gp[i].0.len() <= w
        } by {
            let e = gp[i];
            if i < g0.len() {
                assert(g0.contains(e));
                let q = e.0.skip(1);
                assert(seq![false].is_prefix_of(e.0));
                assert(seq![false] == e.0.subrange(0, 1));
                assert(e.0.subrange(0, 1)[0] == e.0[0]);
                assert(e.0[0] == false);
                assert(node_at(child_of(s, false), q));
                assert(node_at(s, e.0));
                lemma_node_at_marked(s, e.0, k);
                let r = choose|r: Seq<bool>| e.0.is_prefix_of(r) && #[trigger] color_at(s, r) != 0;
                assert(e.0.len() <= r.len() <= w);
            } else {
                assert(g1[i - g0.len()] == e);
                assert(g1.contains(e));
                let q = e.0.skip(1);
                assert(seq![true].is_prefix_of(e.0));
                assert(seq![true] == e.0.subrange(0, 1));
                assert(e.0.subrange(0, 1)[0] == e.0[0]);
                assert(e.0[0] == true);
                assert(node_at(child_of(s, true), q));
                assert(node_at(s, e.0));
                lemma_node_at_marked(s, e.0, k);
                let r = choose|r: Seq<bool>| e.0.is_prefix_of(r) && #[trigger] color_at(s, r) != 0;
                assert(e.0.len() <= r.len() <= w);
            }
        }
    } else {
        lemma_gen_in_range(s, 0, k, Seq::empty());
        assert forall|i: int| 0 <= i < gp.len() implies {
            &&& 1 <= (#[trigger] gp[i]).1 <= k
            &&& gp[i].0.len() <= w
        } by {
            let e = gp[i];
            assert(gp.contains(e));
            assert(e.0.skip(0) =~= e.0);
            assert(node_at(s, e.0));
            lemma_node_at_marked(s, e.0, k);
            let r = choose|r: Seq<bool>| e.0.is_prefix_of(r) && #[trigger] color_at(s, r) != 0;
            assert(e.0.len() <= r.len() <= w);
        }
    }
}


/// The number of routes the walk emits is exactly the number the DP pass
/// computed: `num_routes` is not an estimate but the achieved size.
pub proof fn lemma_route_count(s: Shape, c: nat, k: nat, path: Seq<bool>)
    ensures
        gen(s, c, k, path).len() == nr(s, c, k),
    decreases s,
{
    match s {
        Shape::Absent => {},
        Shape::Node { color, c0, c1 } => {
            let dcd = decide(s, c, k);
            let c2: nat = match dcd {
                Option::Some(d) => d,
                Option::None => c,
            };
            lemma_route_count(*c0, c2, k, path.push(false));
            lemma_route_count(*c1, c2, k, path.push(true));
            if *c0 is Absent && *c1 is Absent {
                assert(gen(*c0, c2, k, path.push(false)).len() == 0);
                assert(gen(*c1, c2, k, path.push(true)).len() == 0);
            } else {
                let m = minidx_upto(s, k, k);
                if dcd is Some {
                    assert(nr(s, c, k) == base(s, m, k) + 1);
                    assert(gen(*c0, m, k, path.push(false)).len() + gen(*c1, m, k, path.push(true)).len()
                        == base(s, m, k));
                } else {
                    assert(nr(s, c, k) == base(s, c, k));
                }
            }
        },
    }
}

/// With the default route suppressed, no emitted route has length zero.
pub proof fn lemma_no_default_no_zero_length(s: Shape, k: nat)
    requires
        s is Node,
        s == empty_shape() || shape_wf(s, k),
    ensures
        forall|i: int|
            0 <= i < tree_gen(s, k, true).len() ==> (#[trigger] tree_gen(s, k, true)[i]).0.len() >= 1,
{
    let gp = tree_gen(s, k, true);
    if s == empty_shape() {
        assert(gp.len() == 0);
    } else {
        let g0 = gen(child_of(s, false), 0, k, seq![false]);
        let g1 = gen(child_of(s, true), 0, k, seq![true]);
        assert(shape_wf(child_of(s, false), k) && shape_wf(child_of(s, true), k)) by {
            if shape_is_leaf(s) {
                assert(*s->c0 is Absent && *s->c1 is Absent);
                assert(shape_wf(Shape::Absent, k));
            } else {
                assert(shape_wf(s, k));
            }
        }
        lemma_gen_in_range(child_of(s, false), 0, k, seq![false]);
        lemma_gen_in_range(child_of(s, true), 0, k, seq![true]);
        assert forall|i: int| 0 <= i < gp.len() implies (#[trigger] gp[i]).0.len() >= 1 by {
            let e = gp[i];
            if i < g0.len() {
                assert(g0.contains(e));
                assert(seq![false].is_prefix_of(e.0));
            } else {
                assert(g1[i - g0.len()] == e);
                assert(g1.contains(e));
                assert(seq![true].is_prefix_of(e.0));
            }
        }
    }
}

/// No emitted route ever carries the reserved color 0, and none a color
/// beyond the gateway count.
pub proof fn lemma_reserved_color(s: Shape, k: nat, nd: bool)
    requires
        s is Node,
        s == empty_shape() || shape_wf(s, k),
    ensures
        forall|i: int|
            0 <= i < tree_gen(s, k, nd).len() ==> 1 <= (#[trigger] tree_gen(s, k, nd)[i]).1 <= k,
{
    let gp = tree_gen(s, k, nd);
    if s == empty_shape() {
        assert(gp.len() == 0);
    } else if nd {
        let g0 = gen(child_of(s, false), 0, k, seq![false]);
        let g1 = gen(child_of(s, true), 0, k, seq![true]);
        assert(shape_wf(child_of(s, false), k) && shape_wf(child_of(s, true), k)) by {
            if shape_is_leaf(s) {
                assert(*s->c0 is Absent && *s->c1 is Absent);
                assert(shape_wf(Shape::Absent, k));
            } else {
                assert(shape_wf(s, k));
            }
        }
        lemma_gen_in_range(child_of(s, false), 0, k, seq![false]);
        lemma_gen_in_range(child_of(s, true), 0, k, seq![true]);
        assert forall|i: int| 0 <= i < gp.len() implies 1 <= (#[trigger] gp[i]).1 <= k by {
            let e = gp[i];
            if i < g0.len() {
                assert(g0.contains(e));
            } else {
                assert(g1[i - g0.len()] == e);
                assert(g1.contains(e));
            }
        }
    } else {
        lemma_gen_in_range(s, 0, k, Seq::empty());
        assert forall|i: int| 0 <= i < gp.len() implies 1 <= (#[trigger] gp[i]).1 <= k by {
            assert(gp.contains(gp[i]));
        }
    }
}


/// Longest-prefix match over a route list: the matching route with the
/// longest path; among equally long matches the earlier route wins.
pub open spec fn lpm(routes: Seq<(Seq<bool>, nat)>, addr: Seq<bool>) -> Option<(Seq<bool>, nat)>
    decreases routes.len(),
{
    if routes.len() == 0 {
        None
    } else {
        let rest = lpm(routes.drop_first(), addr);
        let r0 = routes.first();
        if r0.0.is_prefix_of(addr) {
            match rest {
                Option::None => Some(r0),
                Option::Some(rb) => if r0.0.len() >= rb.0.len() {
                    Some(r0)
                } else {
                    Some(rb)
                },
            }
        } else {
            rest
        }
    }
}

/// The gateway an address is classified to: its longest-prefix match, or
/// the inherited color where no route matches.
pub open spec fn routed(routes: Seq<(Seq<bool>, nat)>, addr: Seq<bool>, inherited: nat) -> nat {
    match lpm(routes, addr) {
        Option::Some(r) => r.1,
        Option::None => inherited,
    }
}

/// Some prefix of `rest` is marked in `s`.
pub open spec fn covered(s: Shape, rest: Seq<bool>) -> bool {
    exists|q: Seq<bool>| q.is_prefix_of(rest) && #[trigger] color_at(s, q) != 0
}

/// The color of the marked prefix of `rest` (unique in a well-formed trie).
pub open spec fn covering_color(s: Shape, rest: Seq<bool>) -> nat {
    color_at(s, choose|q: Seq<bool>| q.is_prefix_of(rest) && #[trigger] color_at(s, q) != 0)
}

/// The preferred of two match results: the longer path, ties to the first.
pub open spec fn lpm_better(a: Option<(Seq<bool>, nat)>, b: Option<(Seq<bool>, nat)>) -> Option<
    (Seq<bool>, nat),
> {
    match a {
        Option::None => b,
        Option::Some(ra) => match b {
            Option::None => a,
            Option::Some(rb) => if ra.0.len() >= rb.0.len() {
                a
            } else {
                b
            },
        },
    }
}

proof fn lemma_lpm_none(routes: Seq<(Seq<bool>, nat)>, addr: Seq<bool>)
    requires
        forall|i: int| 0 <= i < routes.len() ==> !(#[trigger] routes[i]).0.is_prefix_of(addr),
    ensures
        lpm(routes, addr) is None,
    decreases routes.len(),
{
    if routes.len() > 0 {
        assert(routes[0] == routes.first());
        lemma_lpm_none(routes.drop_first(), addr);
    }
}

proof fn lemma_lpm_split(r1: Seq<(Seq<bool>, nat)>, r2: Seq<(Seq<bool>, nat)>, addr: Seq<bool>)
    ensures
        lpm(r1 + r2, addr) == lpm_better(lpm(r1, addr), lpm(r2, addr)),
    decreases r1.len(),
{
    if r1.len() == 0 {
        assert(r1 + r2 =~= r2);
    } else {
        lemma_lpm_split(r1.drop_first(), r2, addr);
        assert((r1 + r2).drop_first() =~= r1.drop_first() + r2);
        assert((r1 + r2).first() == r1.first());
        assert((r1 + r2).len() > 0);
    }
}

proof fn lemma_lpm_member(routes: Seq<(Seq<bool>, nat)>, addr: Seq<bool>)
    ensures
        match lpm(routes, addr) {
            Option::Some(r) => routes.contains(r) && r.0.is_prefix_of(addr),
            Option::None => true,
        },
    decreases routes.len(),
{
    if routes.len() > 0 {
        lemma_lpm_member(routes.drop_first(), addr);
        if lpm(routes, addr) is Some {
            let r = lpm(routes, addr).unwrap();
            if r == routes.first() {
                assert(routes[0] == r);
            } else {
                assert(routes.drop_first().contains(r));
                let i = choose|i: int|
                    0 <= i < routes.drop_first().len() && routes.drop_first()[i] == r;
                assert(routes[i + 1] == r);
            }
        }
    }
}

/// A marked prefix is a leaf, so no other mark sits on the same chain.
proof fn lemma_mark_unique(s: Shape, k: nat, q1: Seq<bool>, q2: Seq<bool>)
    requires
        shape_wf(s, k),
        color_at(s, q1) != 0,
        color_at(s, q2) != 0,
        q1.is_prefix_of(q2),
    ensures
        q1 == q2,
    decreases s,
{
    match s {
        Shape::Absent => {
            assert(color_at(s, q1) == 0);
        },
        Shape::Node { color, c0, c1 } => {
            if q1.len() == 0 {
                if q2.len() > 0 {
                    assert(color != 0);
                    assert(*c0 is Absent && *c1 is Absent);
                    assert(color_at(child_of(s, q2[0]), q2.skip(1)) == 0);
                    assert(false);
                }
                assert(q1 =~= q2);
            } else {
                assert(q2.len() >= q1.len());
                assert(q1[0] == q2.subrange(0, q1.len() as int)[0]);
                assert(q2.subrange(0, q1.len() as int)[0] == q2[0]);
                let child = child_of(s, q1[0]);
                assert(color_at(child, q1.skip(1)) != 0);
                assert(!(child is Absent));
                assert(!shape_is_leaf(s));
                assert(shape_wf(child, k));
                assert(color_at(child, q2.skip(1)) != 0);
                assert forall|j: int| 0 <= j < q1.skip(1).len() implies q1.skip(1)[j] == q2.skip(
                    1,
                )[j] by {
                    assert(q1[j + 1] == q2.subrange(0, q1.len() as int)[j + 1]);
                    assert(q2.subrange(0, q1.len() as int)[j + 1] == q2[j + 1]);
                }
                assert(q1.skip(1).is_prefix_of(q2.skip(1))) by {
                    assert(q1.skip(1) =~= q2.skip(1).subrange(0, q1.skip(1).len() as int));
                }
                lemma_mark_unique(child, k, q1.skip(1), q2.skip(1));
                assert(q1 =~= q2);
            }
        },
    }
}

/// Any marked prefix of `rest` carries the covering color.
proof fn lemma_covering_color(s: Shape, k: nat, rest: Seq<bool>, q: Seq<bool>)
    requires
        shape_wf(s, k),
        q.is_prefix_of(rest),
        color_at(s, q) != 0,
    ensures
        covering_color(s, rest) == color_at(s, q),
        covered(s, rest),
{
    let qq = choose|qq: Seq<bool>| qq.is_prefix_of(rest) && #[trigger] color_at(s, qq) != 0;
    if q.len() <= qq.len() {
        assert(q =~= qq.subrange(0, q.len() as int)) by {
            assert forall|j: int| 0 <= j < q.len() implies q[j] == qq[j] by {
                assert(q[j] == rest[j] && qq[j] == rest[j]) by {
                    assert(q == rest.subrange(0, q.len() as int));
                    assert(qq == rest.subrange(0, qq.len() as int));
                    assert(rest.subrange(0, q.len() as int)[j] == rest[j]);
                    assert(rest.subrange(0, qq.len() as int)[j] == rest[j]);
                }
            }
        }
        lemma_mark_unique(s, k, q, qq);
    } else {
        assert(qq =~= q.subrange(0, qq.len() as int)) by {
            assert forall|j: int| 0 <= j < qq.len() implies qq[j] == q[j] by {
                assert(q == rest.subrange(0, q.len() as int));
                assert(qq == rest.subrange(0, qq.len() as int));
                assert(rest.subrange(0, q.len() as int)[j] == rest[j]);
                assert(rest.subrange(0, qq.len() as int)[j] == rest[j]);
            }
        }
        lemma_mark_unique(s, k, qq, q);
    }
}


proof fn lemma_gen_routes(s: Shape, c: nat, k: nat, path: Seq<bool>, rest: Seq<bool>)
    requires
        s is Node,
        shape_wf(s, k),
        c <= k,
        covered(s, rest),
    ensures
        routed(gen(s, c, k, path), path + rest, c) == covering_color(s, rest),
    decreases s,
{
    let addr = path + rest;
    let dcd = decide(s, c, k);
    let c2: nat = match dcd {
        Option::Some(d) => d,
        Option::None => c,
    };
    let here: Seq<(Seq<bool>, nat)> = match dcd {
        Option::Some(d) => seq![(path, d)],
        Option::None => seq![],
    };
    let g0 = gen(*s->c0, c2, k, path.push(false));
    let g1 = gen(*s->c1, c2, k, path.push(true));
    assert(gen(s, c, k, path) == here + g0 + g1);
    if dcd is Some {
        if shape_is_leaf(s) {
        } else {
            lemma_minidx_le(s, k, k);
        }
    }
    assert(c2 <= k);
    assert(path.is_prefix_of(addr)) by {
        assert(path =~= addr.subrange(0, path.len() as int));
    }
    let q = choose|q: Seq<bool>| q.is_prefix_of(rest) && #[trigger] color_at(s, q) != 0;
    if shape_is_leaf(s) {
        if q.len() > 0 {
            assert(color_at(child_of(s, q[0]), q.skip(1)) == 0);
            assert(false);
        }
        lemma_covering_color(s, k, rest, q);
        assert(covering_color(s, rest) == s->color);
        assert(g0 =~= Seq::<(Seq<bool>, nat)>::empty());
        assert(g1 =~= Seq::<(Seq<bool>, nat)>::empty());
        if c == s->color {
            assert(dcd is None);
            assert(gen(s, c, k, path) =~= Seq::<(Seq<bool>, nat)>::empty());
            assert(lpm(gen(s, c, k, path), addr) is None);
        } else {
            assert(dcd == Option::Some(s->color));
            let single = seq![(path, s->color)];
            assert(gen(s, c, k, path) =~= single);
            assert(single.drop_first() =~= Seq::<(Seq<bool>, nat)>::empty());
            assert(single.first() == (path, s->color));
            assert(lpm(single, addr) == Option::Some((path, s->color)));
        }
    } else {
        assert(s->color == 0);
        if q.len() == 0 {
            assert(color_at(s, q) == 0);
            assert(false);
        }
        assert(rest.len() >= q.len() >= 1);
        let b = rest[0];
        assert(q == rest.subrange(0, q.len() as int));
        assert(rest.subrange(0, q.len() as int)[0] == rest[0]);
        assert(q[0] == b);
        let child = child_of(s, b);
        assert(color_at(s, q) == color_at(child, q.skip(1)));
        assert(!(child is Absent));
        assert(shape_wf(child, k));
        assert(q.skip(1).is_prefix_of(rest.skip(1))) by {
            assert(q.skip(1) =~= rest.skip(1).subrange(0, q.skip(1).len() as int));
        }
        assert(color_at(child, q.skip(1)) != 0);
        assert(covered(child, rest.skip(1)));
        lemma_covering_color(child, k, rest.skip(1), q.skip(1));
        lemma_covering_color(s, k, rest, q);
        assert(covering_color(s, rest) == covering_color(child, rest.skip(1)));
        let gb = if b {
            g1
        } else {
            g0
        };
        let gnb = if b {
            g0
        } else {
            g1
        };
        let other = child_of(s, !b);
        assert(path.push(b) + rest.skip(1) =~= addr);
        lemma_gen_routes(child, c2, k, path.push(b), rest.skip(1));
        assert(routed(gb, addr, c2) == covering_color(child, rest.skip(1)));
        assert(shape_wf(other, k));
        if other is Node {
            lemma_gen_in_range(other, c2, k, path.push(!b));
        }
        assert forall|i: int| 0 <= i < gnb.len() implies !(#[trigger] gnb[i]).0.is_prefix_of(
            addr,
        ) by {
            assert(gnb.contains(gnb[i]));
            let e = gnb[i];
            assert(path.push(!b).is_prefix_of(e.0));
            if e.0.is_prefix_of(addr) {
                let pl = path.len() as int;
                assert(path.push(!b) == e.0.subrange(0, pl + 1));
                assert(e.0.subrange(0, pl + 1)[pl] == e.0[pl]);
                assert(e.0[pl] == !b);
                assert(e.0 == addr.subrange(0, e.0.len() as int));
                assert(addr.subrange(0, e.0.len() as int)[pl] == addr[pl]);
                assert(addr[pl] == rest[0]);
                assert(false);
            }
        }
        lemma_lpm_none(gnb, addr);
        if dcd is Some {
            assert(here.drop_first() =~= Seq::<(Seq<bool>, nat)>::empty());
            assert(here.first() == (path, c2));
            assert(here.len() == 1);
            assert(lpm(here.drop_first(), addr) is None);
            assert(here.first().0.is_prefix_of(addr));
            assert(lpm(here, addr) == Option::Some((path, c2)));
        } else {
            assert(lpm(here, addr) is None);
        }
        lemma_lpm_split(here + g0, g1, addr);
        lemma_lpm_split(here, g0, addr);
        lemma_lpm_member(gb, addr);
        let mb = lpm(gb, addr);
        match mb {
            Option::Some(rb) => {
                assert(gb.contains(rb));
                lemma_gen_in_range(child, c2, k, path.push(b));
                assert(path.push(b).is_prefix_of(rb.0));
                assert(rb.0.len() > path.len());
                assert(lpm(gen(s, c, k, path), addr) == Option::Some(rb));
                assert(rb.1 == covering_color(child, rest.skip(1)));
            },
            Option::None => {
                assert(c2 == covering_color(child, rest.skip(1)));
                assert(lpm(gen(s, c, k, path), addr) == lpm(here, addr));
            },
        }
    }
}

/// Coverage: with the default route allowed, longest-prefix match over the
/// emitted routes classifies every address inside a marked prefix to the
/// color of that prefix.
pub proof fn lemma_coverage(s: Shape, k: nat, addr: Seq<bool>)
    requires
        s is Node,
        s == empty_shape() || shape_wf(s, k),
        covered(s, addr),
    ensures
        routed(tree_gen(s, k, false), addr, 0) == covering_color(s, addr),
{
    if s == empty_shape() {
        let q = choose|q: Seq<bool>| q.is_prefix_of(addr) && #[trigger] color_at(s, q) != 0;
        lemma_empty_quiet(q);
        assert(false);
    }
    assert(Seq::<bool>::empty() + addr =~= addr);
    lemma_gen_routes(s, 0, k, Seq::empty(), addr);
}

/// Coverage under a suppressed default route: an address inside a marked
/// prefix is either unrouted or classified to the color of that prefix.
pub proof fn lemma_coverage_no_default(s: Shape, k: nat, addr: Seq<bool>)
    requires
        s is Node,
        s == empty_shape() || shape_wf(s, k),
        covered(s, addr),
    ensures
        match lpm(tree_gen(s, k, true), addr) {
            Option::Some(r) => r.1 == covering_color(s, addr),
            Option::None => true,
        },
{
    if s == empty_shape() {
        let q = choose|q: Seq<bool>| q.is_prefix_of(addr) && #[trigger] color_at(s, q) != 0;
        lemma_empty_quiet(q);
        assert(false);
    }
    let q = choose|q: Seq<bool>| q.is_prefix_of(addr) && #[trigger] color_at(s, q) != 0;
    let g0 = gen(child_of(s, false), 0, k, seq![false]);
    let g1 = gen(child_of(s, true), 0, k, seq![true]);
    assert(tree_gen(s, k, true) == g0 + g1);
    if shape_is_leaf(s) {
        assert(g0 =~= Seq::<(Seq<bool>, nat)>::empty());
        assert(g1 =~= Seq::<(Seq<bool>, nat)>::empty());
        assert(tree_gen(s, k, true) =~= Seq::<(Seq<bool>, nat)>::empty());
        assert(lpm(tree_gen(s, k, true), addr) is None);
    } else {
        assert(s->color == 0);
        if q.len() == 0 {
            assert(color_at(s, q) == 0);
            assert(false);
        }
        let b = addr[0];
        assert(q == addr.subrange(0, q.len() as int));
        assert(addr.subrange(0, q.len() as int)[0] == addr[0]);
        assert(q[0] == b);
        let child = child_of(s, b);
        assert(color_at(s, q) == color_at(child, q.skip(1)));
        assert(!(child is Absent));
        assert(shape_wf(child, k));
        assert(q.skip(1).is_prefix_of(addr.skip(1))) by {
            assert(q.skip(1) =~= addr.skip(1).subrange(0, q.skip(1).len() as int));
        }
        assert(covered(child, addr.skip(1)));
        lemma_covering_color(child, k, addr.skip(1), q.skip(1));
        lemma_covering_color(s, k, addr, q);
        assert(covering_color(s, addr) == covering_color(child, addr.skip(1)));
        let gb = if b {
            g1
        } else {
            g0
        };
        let gnb = if b {
            g0
        } else {
            g1
        };
        let other = child_of(s, !b);
        assert(seq![b] + addr.skip(1) =~= addr);
        lemma_gen_routes(child, 0, k, seq![b], addr.skip(1));
        assert(routed(gb, addr, 0) == covering_color(child, addr.skip(1)));
        assert(shape_wf(other, k));
        if other is Node {
            lemma_gen_in_range(other, 0, k, seq![!b]);
        }
        assert forall|i: int| 0 <= i < gnb.len() implies !(#[trigger] gnb[i]).0.is_prefix_of(
            addr,
        ) by {
            assert(gnb.contains(gnb[i]));
            let e = gnb[i];
            assert(seq![!b].is_prefix_of(e.0));
            if e.0.is_prefix_of(addr) {
                assert(seq![!b] == e.0.subrange(0, 1));
                assert(e.0.subrange(0, 1)[0] == e.0[0]);
                assert(e.0 == addr.subrange(0, e.0.len() as int));
                assert(addr.subrange(0, e.0.len() as int)[0] == addr[0]);
                assert(false);
            }
        }
        lemma_lpm_none(gnb, addr);
        lemma_lpm_split(g0, g1, addr);
        lemma_lpm_member(gb, addr);
    }
}

/// A binary trie of colored prefixes for `colors` gateways.
pub struct Tree {
    root: Node,
    colors: usize,
    marked: usize,
}

impl Tree {
    /// The number of gateway colors `K`; marks carry colors in `[1, K]`.
    pub closed spec fn k(&self) -> nat {
        self.colors as nat
    }

    /// The ghost structure of the trie.
    pub closed spec fn shape(&self) -> Shape {
        self.root.shape()
    }

    /// How many marks have been placed so far.
    pub closed spec fn marks_made(&self) -> nat {
        self.marked as nat
    }

    /// The color recorded for the prefix `path`, 0 where none is.
    pub open spec fn mark_at(&self, path: Seq<bool>) -> nat {
        color_at(self.shape(), path)
    }

    /// Internal invariant: the trie is empty or well formed, and the leaf
    /// count stays below the mark counter, which itself leaves headroom.
    pub closed spec fn wf(&self) -> bool {
        &&& self.root.sized(self.colors as nat)
        &&& self.shape() == empty_shape() || shape_wf(self.shape(), self.colors as nat)
        &&& leaves(self.shape()) <= self.marked + 1
        &&& self.marked <= usize::MAX - 2
        &&& self.colors < usize::MAX
    }

    /// A fresh trie for `colors` gateways, with nothing marked.
    pub fn new(colors: usize) -> (r: Tree)
        requires
            colors < usize::MAX,
        ensures
            r.wf(),
            r.k() == colors,
            r.marks_made() == 0,
            r.shape() == empty_shape(),
    {
        Tree { root: Node::new(colors), colors, marked: 0 }
    }


    /// Inserts the prefix given by the first `prefix_len` bits of `octets`
    /// and colors it `color`. A later mark of the same prefix overwrites the
    /// earlier color; a prefix that strictly contains or is contained in an
    /// already marked one is rejected unchanged.
    pub fn mark(&mut self, octets: &[u8], prefix_len: usize, color: usize) -> (r: Result<(), MarkError>)
        requires
            old(self).wf(),
            1 <= color <= old(self).k(),
            prefix_len <= octets@.len() * 8,
            old(self).marks_made() <= usize::MAX - 3,
        ensures
            final(self).wf(),
            final(self).k() == old(self).k(),
            (r is Err) == conflicts(old(self).shape(), bits_of(octets@, prefix_len as int)),
            r is Err ==> final(self).shape() == old(self).shape() && final(self).marks_made()
                == old(self).marks_made(),
            r is Ok ==> final(self).marks_made() == old(self).marks_made() + 1,
            r is Ok ==> shape_wf(final(self).shape(), final(self).k()),
            r is Ok ==> forall|p: Seq<bool>|
                #[trigger] final(self).mark_at(p) == (if p == bits_of(octets@, prefix_len as int) {
                    color as nat
                } else {
                    old(self).mark_at(p)
                }),
    {
        let r = mark_rec(&mut self.root, octets, prefix_len, 0, color, self.colors);
        if r.is_ok() {
            self.marked = self.marked + 1;
        }
        r
    }


    /// Runs the DP pass and collects the emitted (bit path, color) pairs.
    fn gen_pairs(&mut self, no_default_gateway: bool) -> (r: Vec<(Vec<bool>, usize)>)
        requires
            old(self).wf(),
        ensures
            final(self).wf(),
            final(self).shape() == old(self).shape(),
            final(self).k() == old(self).k(),
            final(self).marks_made() == old(self).marks_made(),
            pairs_view(r@) == tree_gen(old(self).shape(), old(self).k(), no_default_gateway),
    {
        let ghost k = self.colors as nat;
        let ghost s0 = self.shape();
        if self.root.child0.is_none() && self.root.child1.is_none() && self.root.color == 0 {
            proof {
                assert(self.shape() =~= empty_shape());
            }
            let r: Vec<(Vec<bool>, usize)> = Vec::new();
            proof {
                assert(pairs_view(r@) =~= tree_gen(s0, k, no_default_gateway));
            }
            return r;
        }
        proof {
            if s0 == empty_shape() {
                if self.root.child0 is Some {
                    lemma_shape_is_node(*self.root.child0.unwrap());
                    assert(false);
                } else if self.root.child1 is Some {
                    lemma_shape_is_node(*self.root.child1.unwrap());
                    assert(false);
                } else {
                    assert(s0->color == self.root.color as nat);
                    assert(false);
                }
            }
            assert(shape_wf(s0, k));
        }
        self.root.dp(self.colors);
        let mut out: Vec<(Vec<bool>, usize)> = Vec::new();
        let mut bits: Vec<bool> = Vec::new();
        if no_default_gateway {
            match &self.root.child0 {
                Some(b) => {
                    proof {
                        assert(**b == *self.root.child0.unwrap());
                        assert((**b).dp_done(k));
                        assert(b.shape() == *s0->c0);
                        assert(!shape_is_leaf(s0));
                        assert(shape_wf(b.shape(), k));
                    }
                    bits.push(false);
                    proof {
                        assert(bits@ =~= seq![false]);
                    }
                    b.generate(self.colors, 0, &mut bits, &mut out);
                    bits.pop();
                },
                None => {
                    proof {
                        assert(*s0->c0 is Absent);
                        assert(gen(child_of(s0, false), 0, k, seq![false]) =~= Seq::<(Seq<bool>, nat)>::empty());
                    }
                },
            }
            let ghost mid = pairs_view(out@);
            proof {
                assert(mid =~= gen(child_of(s0, false), 0, k, seq![false]));
                assert(bits@ =~= Seq::<bool>::empty());
            }
            match &self.root.child1 {
                Some(b) => {
                    proof {
                        assert(**b == *self.root.child1.unwrap());
                        assert((**b).dp_done(k));
                        assert(b.shape() == *s0->c1);
                        assert(!shape_is_leaf(s0));
                        assert(shape_wf(b.shape(), k));
                    }
                    bits.push(true);
                    proof {
                        assert(bits@ =~= seq![true]);
                    }
                    b.generate(self.colors, 0, &mut bits, &mut out);
                    bits.pop();
                },
                None => {
                    proof {
                        assert(*s0->c1 is Absent);
                        assert(gen(child_of(s0, true), 0, k, seq![true]) =~= Seq::<(Seq<bool>, nat)>::empty());
                    }
                },
            }
            proof {
                assert(pairs_view(out@) =~= mid + gen(child_of(s0, true), 0, k, seq![true]));
                assert(pairs_view(out@) =~= tree_gen(s0, k, no_default_gateway));
            }
        } else {
            proof {
                assert(self.root.dp_done(k));
                assert(self.root.shape() == s0);
            }
            self.root.generate(self.colors, 0, &mut bits, &mut out);
            proof {
                assert(pairs_view(out@) =~= Seq::<(Seq<bool>, nat)>::empty() + gen(s0, 0, k, Seq::empty()));
                assert(pairs_view(out@) =~= tree_gen(s0, k, no_default_gateway));
            }
        }
        out
    }


    /// Emits the minimum IPv4 route list: for each emitted pair, the padded
    /// address, the mask of its length, and the name of its gateway.
    #[verifier::loop_isolation(false)]
    pub fn generate_v4(&mut self, gateways: &[GatewayMapping], no_default_gateway: bool) -> (r: Vec<Ipv4Route>)
        requires
            old(self).wf(),
            gateways@.len() == old(self).k(),
            forall|p: Seq<bool>| #[trigger] old(self).mark_at(p) != 0 ==> p.len() <= 32,
        ensures
            final(self).wf(),
            final(self).shape() == old(self).shape(),
            final(self).k() == old(self).k(),
            final(self).marks_made() == old(self).marks_made(),
            r@.len() == tree_gen(old(self).shape(), old(self).k(), no_default_gateway).len(),
            forall|i: int| 0 <= i < r@.len() ==> {
                let e = tree_gen(old(self).shape(), old(self).k(), no_default_gateway)[i];
                &&& (#[trigger] r@[i]).length as nat == e.0.len()
                &&& r@[i].prefix@ == v4_octets(padded_bits(e.0, 32))
                &&& r@[i].mask@ == v4_octets(mask_bits(e.0.len() as int, 32))
                &&& r@[i].gateway@ == gateways@[e.1 as int - 1].gateway@
            },
    {
        let ghost gp = tree_gen(old(self).shape(), old(self).k(), no_default_gateway);
        let mut pairs = self.gen_pairs(no_default_gateway);
        proof {
            lemma_shape_is_node(old(self).root);
            assert forall|p: Seq<bool>| #[trigger] color_at(old(self).shape(), p) != 0 implies p.len()
                <= 32 by {
                assert(old(self).mark_at(p) == color_at(old(self).shape(), p));
            }
            lemma_tree_gen_bounds(old(self).shape(), old(self).k(), no_default_gateway, 32);
        }
        let mut out: Vec<Ipv4Route> = Vec::new();
        while pairs.len() > 0
            invariant
                out@.len() + pairs@.len() == gp.len(),
                pairs_view(pairs@) == gp.skip(out@.len() as int),
                forall|i: int| 0 <= i < out@.len() ==> {
                    let e = gp[i];
                    &&& (#[trigger] out@[i]).length as nat == e.0.len()
                    &&& out@[i].prefix@ == v4_octets(padded_bits(e.0, 32))
                    &&& out@[i].mask@ == v4_octets(mask_bits(e.0.len() as int, 32))
                    &&& out@[i].gateway@ == gateways@[e.1 as int - 1].gateway@
                },
            decreases pairs@.len(),
        {
            let ghost j = out@.len() as int;
            proof {
                assert(pairs_view(pairs@)[0] == gp[j]);
            }
            let ghost pvs = pairs@;
            let (pbits, color) = pairs.remove(0);
            proof {
                assert(pbits@ == gp[j].0 && color as nat == gp[j].1);
                assert(1 <= gp[j].1 <= gateways@.len() && gp[j].0.len() <= 32);
            }
            let (pb, mb) = build_width_bits(&pbits, 32);
            let prefix = pack_v4(&pb);
            let mask = pack_v4(&mb);
            let gw = gateways[color - 1].gateway.clone();
            let length = pbits.len() as u8;
            out.push(Ipv4Route { prefix, mask, length, gateway: gw });
            proof {
                assert(pairs@ =~= pvs.skip(1));
                assert forall|x: int| 0 <= x < pairs@.len() implies pairs_view(pairs@)[x] == gp.skip(
                    j + 1,
                )[x] by {
                    assert(pairs@[x] == pvs[x + 1]);
                    assert(pairs_view(pvs)[x + 1] == gp.skip(j)[x + 1]);
                }
                assert(pairs_view(pairs@) =~= gp.skip(j + 1));
            }
        }
        out
    }

    /// Emits the minimum IPv6 route list, as `generate_v4` does for IPv4.
    #[verifier::loop_isolation(false)]
    pub fn generate_v6(&mut self, gateways: &[GatewayMapping], no_default_gateway: bool) -> (r: Vec<Ipv6Route>)
        requires
            old(self).wf(),
            gateways@.len() == old(self).k(),
            forall|p: Seq<bool>| #[trigger] old(self).mark_at(p) != 0 ==> p.len() <= 128,
        ensures
            final(self).wf(),
            final(self).shape() == old(self).shape(),
            final(self).k() == old(self).k(),
            final(self).marks_made() == old(self).marks_made(),
            r@.len() == tree_gen(old(self).shape(), old(self).k(), no_default_gateway).len(),
            forall|i: int| 0 <= i < r@.len() ==> {
                let e = tree_gen(old(self).shape(), old(self).k(), no_default_gateway)[i];
                &&& (#[trigger] r@[i]).length as nat == e.0.len()
                &&& r@[i].prefix@ == v6_segments(padded_bits(e.0, 128))
                &&& r@[i].mask@ == v6_segments(mask_bits(e.0.len() as int, 128))
                &&& r@[i].gateway@ == gateways@[e.1 as int - 1].gateway@
            },
    {
        let ghost gp = tree_gen(old(self).shape(), old(self).k(), no_default_gateway);
        let mut pairs = self.gen_pairs(no_default_gateway);
        proof {
            lemma_shape_is_node(old(self).root);
            assert forall|p: Seq<bool>| #[trigger] color_at(old(self).shape(), p) != 0 implies p.len()
                <= 128 by {
                assert(old(self).mark_at(p) == color_at(old(self).shape(), p));
            }
            lemma_tree_gen_bounds(old(self).shape(), old(self).k(), no_default_gateway, 128);
        }
        let mut out: Vec<Ipv6Route> = Vec::new();
        while pairs.len() > 0
            invariant
                out@.len() + pairs@.len() == gp.len(),
                pairs_view(pairs@) == gp.skip(out@.len() as int),
                forall|i: int| 0 <= i < out@.len() ==> {
                    let e = gp[i];
                    &&& (#[trigger] out@[i]).length as nat == e.0.len()
                    &&& out@[i].prefix@ == v6_segments(padded_bits(e.0, 128))
                    &&& out@[i].mask@ == v6_segments(mask_bits(e.0.len() as int, 128))
                    &&& out@[i].gateway@ == gateways@[e.1 as int - 1].gateway@
                },
            decreases pairs@.len(),
        {
            let ghost j = out@.len() as int;
            proof {
                assert(pairs_view(pairs@)[0] == gp[j]);
            }
            let ghost pvs = pairs@;
            let (pbits, color) = pairs.remove(0);
            proof {
                assert(pbits@ == gp[j].0 && color as nat == gp[j].1);
                assert(1 <= gp[j].1 <= gateways@.len() && gp[j].0.len() <= 128);
            }
            let (pb, mb) = build_width_bits(&pbits, 128);
            let prefix = pack_v6(&pb);
            let mask = pack_v6(&mb);
            let gw = gateways[color - 1].gateway.clone();
            let length = pbits.len() as u8;
            out.push(Ipv6Route { prefix, mask, length, gateway: gw });
            proof {
                assert(pairs@ =~= pvs.skip(1));
                assert forall|x: int| 0 <= x < pairs@.len() implies pairs_view(pairs@)[x] == gp.skip(
                    j + 1,
                )[x] by {
                    assert(pairs@[x] == pvs[x + 1]);
                    assert(pairs_view(pvs)[x + 1] == gp.skip(j)[x + 1]);
                }
                assert(pairs_view(pairs@) =~= gp.skip(j + 1));
            }
        }
        out
    }

    /// The number of marks placed so far, as a runtime value.
    pub fn marked_count(&self) -> (r: usize)
        ensures
            r == self.marks_made(),
    {
        self.marked
    }
}

} // verus!
