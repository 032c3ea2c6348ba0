//! The bounding-volume hierarchy: an eight-way tree over a reordered object
//! array, built by recursive splitting and traversed iteratively with an
//! explicit stack.
//!
//! The scalar geometry is opaque here. Box types, split choices and
//! intersection tests come in through type parameters and closures; what is
//! verified is the structure: the splits permute the objects and never lose
//! or duplicate one, the leaves of the finished tree tile the object array
//! exactly, and the traversal only ever scans in-bounds object ranges.

use vstd::prelude::*;
use vstd::seq_lib::group_seq_properties;
use vstd::seq_lib::to_multiset_update;

verus! {

broadcast use
    group_seq_properties,
    to_multiset_update,
    vstd::seq_lib::group_to_multiset_ensures;

/// The closure behaves as the function `p`: every call's result is `p` of
/// its argument. Predicates handed to the splitting routines must decide
/// membership by the element alone.
pub open spec fn decides<T, F: Fn(T) -> bool>(pred: F, p: spec_fn(T) -> bool) -> bool {
    forall|t: T, b: bool| #[trigger] call_ensures(pred, (t,), b) ==> b == p(t)
}

/// Swapping two entries of a sequence rearranges it but keeps its contents.
proof fn lemma_swap_multiset<T>(s: Seq<T>, i: int, j: int)
    requires
        0 <= i < s.len(),
        0 <= j < s.len(),
    ensures
        s.update(i, s[j]).update(j, s[i]).to_multiset() == s.to_multiset(),
{
    if i == j {
        assert(s.update(i, s[j]).update(j, s[i]) =~= s);
    } else {
        let s1 = s.update(i, s[j]);
        let s2 = s1.update(j, s[i]);
        assert(s1.to_multiset() =~= s.to_multiset().insert(s[j]).remove(s[i]));
        assert(s2.to_multiset() =~= s1.to_multiset().insert(s[i]).remove(s1[j]));
        assert(s1[j] == s[j]);
        assert(s2.to_multiset() =~= s.to_multiset());
    }
}

/// A swap confined to `[lo, hi)` leaves the outside untouched and the inside
/// rearranged only.
proof fn lemma_swap_in_range<T>(s0: Seq<T>, s1: Seq<T>, lo: int, hi: int, i: int, j: int)
    requires
        0 <= lo <= i < hi <= s0.len(),
        lo <= j < hi,
        s1 == s0.update(i, s0[j]).update(j, s0[i]),
    ensures
        s1.len() == s0.len(),
        s1.subrange(0, lo) == s0.subrange(0, lo),
        s1.subrange(hi, s0.len() as int) == s0.subrange(hi, s0.len() as int),
        s1.subrange(lo, hi).to_multiset() == s0.subrange(lo, hi).to_multiset(),
{
    assert(s1.subrange(0, lo) =~= s0.subrange(0, lo));
    assert(s1.subrange(hi, s0.len() as int) =~= s0.subrange(hi, s0.len() as int));
    let a = s0.subrange(lo, hi);
    assert(s1.subrange(lo, hi) =~= a.update(i - lo, a[j - lo]).update(j - lo, a[i - lo]));
    lemma_swap_multiset(a, i - lo, j - lo);
}

/// Exchanges two entries of a vector.
/// Relies on the standard library's `<[T]>::swap`.
#[verifier::external_body]
fn vec_swap<T>(v: &mut Vec<T>, i: usize, j: usize)
    requires
        i < old(v)@.len(),
        j < old(v)@.len(),
    ensures
        final(v)@ == old(v)@.update(i as int, old(v)@[j as int]).update(
            j as int,
            old(v)@[i as int],
        ),
{
    v.swap(i, j);
}

/// Moves the entries of `[lo, hi)` satisfying the predicate ahead of those
/// that do not, by the two-cursor scan-and-swap sweep, and returns the index
/// where the two groups meet. The predicate must behave as a function of its
/// argument; which element of each group ends where is not specified.
#[verifier::loop_isolation(false)]
pub fn partition<T: Copy, F: Fn(T) -> bool>(
    data: &mut Vec<T>,
    lo: usize,
    hi: usize,
    pred: &F,
) -> (r: usize)
    requires
        lo <= hi <= old(data)@.len(),
        forall|t: T| #[trigger] call_requires(*pred, (t,)),
        exists|p: spec_fn(T) -> bool| #[trigger] decides(*pred, p),
    ensures
        lo <= r <= hi,
        final(data)@.len() == old(data)@.len(),
        final(data)@.subrange(0, lo as int) == old(data)@.subrange(0, lo as int),
        final(data)@.subrange(hi as int, old(data)@.len() as int) == old(data)@.subrange(
            hi as int,
            old(data)@.len() as int,
        ),
        final(data)@.subrange(lo as int, hi as int).to_multiset() == old(data)@.subrange(
            lo as int,
            hi as int,
        ).to_multiset(),
        forall|k: int| lo <= k < r ==> call_ensures(*pred, (final(data)@[k],), true),
        forall|k: int| r <= k < hi ==> call_ensures(*pred, (final(data)@[k],), false),
{
    if lo == hi {
        return lo;
    }
    let mut l = lo;
    let mut r = hi - 1;
    loop
        invariant
            lo <= l <= hi,
            lo <= r < hi,
            data@.len() == old(data)@.len(),
            data@.subrange(0, lo as int) == old(data)@.subrange(0, lo as int),
            data@.subrange(hi as int, old(data)@.len() as int) == old(data)@.subrange(
                hi as int,
                old(data)@.len() as int,
            ),
            data@.subrange(lo as int, hi as int).to_multiset() == old(data)@.subrange(
                lo as int,
                hi as int,
            ).to_multiset(),
            forall|k: int| lo <= k < l ==> call_ensures(*pred, (data@[k],), true),
            forall|k: int| r < k < hi ==> call_ensures(*pred, (data@[k],), false),
        decreases 2 * (r - l) + (if call_ensures(*pred, (data@[l as int],), false) {
            1int
        } else {
            0int
        }),
    {
        while l < hi && pred(data[l])
            invariant
                lo <= l <= hi,
                forall|k: int| lo <= k < l ==> call_ensures(*pred, (data@[k],), true),
            decreases hi - l,
        {
            l = l + 1;
        }
        while r > lo && !pred(data[r])
            invariant
                lo <= r < hi,
                forall|k: int| r < k < hi ==> call_ensures(*pred, (data@[k],), false),
            decreases r - lo,
        {
            r = r - 1;
        }
        if l >= r {
            return l;
        }
        let ghost before = data@;
        vec_swap(data, l, r);
        proof {
            lemma_swap_in_range(before, data@, lo as int, hi as int, l as int, r as int);
        }
    }
}

/// `post` is `pre` with the entries of `[lo, hi)` rearranged: nothing outside
/// the range moved, and the range's contents are the same multiset.
pub open spec fn splits_range<T>(pre: Seq<T>, post: Seq<T>, lo: int, hi: int) -> bool {
    &&& post.len() == pre.len()
    &&& post.subrange(0, lo) == pre.subrange(0, lo)
    &&& post.subrange(hi, pre.len() as int) == pre.subrange(hi, pre.len() as int)
    &&& post.subrange(lo, hi).to_multiset() == pre.subrange(lo, hi).to_multiset()
}

/// Rearranging a range twice in a row rearranges it once.
proof fn lemma_splits_range_trans<T>(s0: Seq<T>, s1: Seq<T>, s2: Seq<T>, lo: int, hi: int)
    requires
        0 <= lo <= hi <= s0.len(),
        splits_range(s0, s1, lo, hi),
        splits_range(s1, s2, lo, hi),
    ensures
        splits_range(s0, s2, lo, hi),
{
}

/// Rearranging a subrange rearranges the whole range.
proof fn lemma_splits_range_widen<T>(s0: Seq<T>, s1: Seq<T>, lo: int, hi: int, a: int, b: int)
    requires
        0 <= lo <= a <= b <= hi <= s0.len(),
        splits_range(s0, s1, a, b),
    ensures
        splits_range(s0, s1, lo, hi),
{
    assert forall|i: int| 0 <= i < a implies s1[i] == s0[i] by {
        assert(s0.subrange(0, a)[i] == s0[i]);
        assert(s1.subrange(0, a)[i] == s1[i]);
    }
    assert forall|i: int| b <= i < s0.len() implies s1[i] == s0[i] by {
        assert(s0.subrange(b, s0.len() as int)[i - b] == s0[i]);
        assert(s1.subrange(b, s0.len() as int)[i - b] == s1[i]);
    }
    assert(s1.subrange(0, lo) =~= s0.subrange(0, lo));
    assert(s1.subrange(hi, s0.len() as int) =~= s0.subrange(hi, s0.len() as int));
    assert(s0.subrange(lo, hi) =~= s0.subrange(lo, a) + s0.subrange(a, b) + s0.subrange(b, hi));
    assert(s1.subrange(lo, hi) =~= s1.subrange(lo, a) + s1.subrange(a, b) + s1.subrange(b, hi));
    assert(s1.subrange(lo, a) =~= s0.subrange(lo, a));
    assert(s1.subrange(b, hi) =~= s0.subrange(b, hi));
    vstd::seq_lib::lemma_multiset_commutative(
        s0.subrange(lo, a) + s0.subrange(a, b),
        s0.subrange(b, hi),
    );
    vstd::seq_lib::lemma_multiset_commutative(s0.subrange(lo, a), s0.subrange(a, b));
    vstd::seq_lib::lemma_multiset_commutative(
        s1.subrange(lo, a) + s1.subrange(a, b),
        s1.subrange(b, hi),
    );
    vstd::seq_lib::lemma_multiset_commutative(s1.subrange(lo, a), s1.subrange(a, b));
    assert(s0.subrange(lo, a) + s0.subrange(a, b) + s0.subrange(b, hi) =~= (s0.subrange(lo, a)
        + s0.subrange(a, b)) + s0.subrange(b, hi));
    assert(s1.subrange(lo, a) + s1.subrange(a, b) + s1.subrange(b, hi) =~= (s1.subrange(lo, a)
        + s1.subrange(a, b)) + s1.subrange(b, hi));
}

/// The comparator behaves as the ordering function `r`: every call's answer
/// is `r` of its arguments.
pub open spec fn decides_order<T, F: Fn(&T, &T) -> core::cmp::Ordering>(
    cmp: F,
    r: spec_fn(T, T) -> core::cmp::Ordering,
) -> bool {
    forall|a: &T, b: &T, o: core::cmp::Ordering|
        #[trigger] call_ensures(cmp, (a, b), o) ==> o == r(*a, *b)
}

/// `r` is a total order: swapping the arguments reverses the answer, and
/// strict order and equivalence are transitive. This is what the standard
/// library's selection and sorting routines ask of a comparator.
pub open spec fn is_total_order<T>(r: spec_fn(T, T) -> core::cmp::Ordering) -> bool {
    &&& forall|a: T, b: T|
        #[trigger] r(a, b) == (match r(b, a) {
            core::cmp::Ordering::Less => core::cmp::Ordering::Greater,
            core::cmp::Ordering::Equal => core::cmp::Ordering::Equal,
            core::cmp::Ordering::Greater => core::cmp::Ordering::Less,
        })
    &&& forall|a: T, b: T, c: T|
        #![trigger r(a, b), r(b, c)]
        r(a, b) == core::cmp::Ordering::Less && r(b, c) == core::cmp::Ordering::Less ==> r(
            a,
            c,
        ) == core::cmp::Ordering::Less
    &&& forall|a: T, b: T, c: T|
        #![trigger r(a, b), r(b, c)]
        r(a, b) == core::cmp::Ordering::Equal && r(b, c) == core::cmp::Ordering::Equal ==> r(
            a,
            c,
        ) == core::cmp::Ordering::Equal
}

/// Every answer the comparator can give on `(x, y)` places `x` at or below
/// `y`.
pub open spec fn le_by<T, F: Fn(&T, &T) -> core::cmp::Ordering>(cmp: F, x: T, y: T) -> bool {
    forall|a: &T, b: &T, o: core::cmp::Ordering|
        #[trigger] call_ensures(cmp, (a, b), o) && *a == x && *b == y ==> o
            != core::cmp::Ordering::Greater
}

/// Reorders `[lo, hi)` so that the element of the given rank inside the range
/// lands at its sorted position, everything before it at or below it and
/// everything after it at or above it, by the caller's comparator.
/// Relies on the standard library's `<[T]>::select_nth_unstable_by`: it
/// reorders the slice in place — a permutation of it — and places the
/// elements around the chosen rank as stated. Its documentation allows a
/// panic when the comparator is not a total order, so one is required here.
#[verifier::external_body]
fn select_nth_in_range<T, F: Fn(&T, &T) -> core::cmp::Ordering>(
    v: &mut Vec<T>,
    lo: usize,
    hi: usize,
    mid: usize,
    cmp: &F,
)
    requires
        lo <= hi <= old(v)@.len(),
        mid < hi - lo,
        forall|a: &T, b: &T| #[trigger] call_requires(*cmp, (a, b)),
        exists|r: spec_fn(T, T) -> core::cmp::Ordering|
            #[trigger] decides_order(*cmp, r) && is_total_order(r),
    ensures
        splits_range(old(v)@, final(v)@, lo as int, hi as int),
        forall|i: int|
            lo <= i < lo + mid ==> le_by(*cmp, #[trigger] final(v)@[i], final(v)@[lo + mid]),
        forall|j: int|
            lo + mid < j < hi ==> le_by(*cmp, final(v)@[lo + mid], #[trigger] final(v)@[j]),
{
    v[lo..hi].select_nth_unstable_by(mid, cmp);
}

/// Splits `[lo, hi)` at its midpoint after moving the lower half of the
/// range, by the caller's ordering, ahead of the upper half: an equal-counts
/// median split. The cut is exactly the midpoint, and the element there
/// bounds both sides.
#[verifier::loop_isolation(false)]
pub fn split_equal_counts<T, F: Fn(&T, &T) -> core::cmp::Ordering>(
    data: &mut Vec<T>,
    lo: usize,
    hi: usize,
    cmp: &F,
) -> (m: usize)
    requires
        lo <= hi <= old(data)@.len(),
        forall|a: &T, b: &T| #[trigger] call_requires(*cmp, (a, b)),
        exists|r: spec_fn(T, T) -> core::cmp::Ordering|
            #[trigger] decides_order(*cmp, r) && is_total_order(r),
    ensures
        m == lo + (hi - lo) / 2,
        hi - lo >= 2 ==> lo < m < hi,
        splits_range(old(data)@, final(data)@, lo as int, hi as int),
        lo < hi ==> forall|i: int|
            lo <= i < m ==> le_by(*cmp, #[trigger] final(data)@[i], final(data)@[m as int]),
        lo < hi ==> forall|j: int|
            m < j < hi ==> le_by(*cmp, final(data)@[m as int], #[trigger] final(data)@[j]),
{
    if lo == hi {
        return lo;
    }
    let mid = (hi - lo) / 2;
    select_nth_in_range(data, lo, hi, mid, cmp);
    lo + mid
}

/// Partitions `[lo, hi)` by the predicate; where everything lands on one
/// side, falls back to the equal-counts split so that a range of two or more
/// is always cut strictly. Either the cut separates the predicate's holders
/// from the rest, or it is the midpoint with the median element bounding
/// both sides.
#[verifier::loop_isolation(false)]
pub fn split_middle<T: Copy, FP: Fn(T) -> bool, FC: Fn(&T, &T) -> core::cmp::Ordering>(
    data: &mut Vec<T>,
    lo: usize,
    hi: usize,
    pred: &FP,
    cmp: &FC,
) -> (m: usize)
    requires
        lo <= hi <= old(data)@.len(),
        forall|t: T| #[trigger] call_requires(*pred, (t,)),
        exists|p: spec_fn(T) -> bool| #[trigger] decides(*pred, p),
        forall|a: &T, b: &T| #[trigger] call_requires(*cmp, (a, b)),
        exists|r: spec_fn(T, T) -> core::cmp::Ordering|
            #[trigger] decides_order(*cmp, r) && is_total_order(r),
    ensures
        lo <= m <= hi,
        hi - lo >= 2 ==> lo < m < hi,
        splits_range(old(data)@, final(data)@, lo as int, hi as int),
        ({
            ||| {
                &&& forall|k: int|
                    lo <= k < m ==> call_ensures(*pred, (#[trigger] final(data)@[k],), true)
                &&& forall|k: int|
                    m <= k < hi ==> call_ensures(*pred, (#[trigger] final(data)@[k],), false)
            }
            ||| {
                &&& m == lo + (hi - lo) / 2
                &&& forall|i: int|
                    lo <= i < m ==> le_by(
                        *cmp,
                        #[trigger] final(data)@[i],
                        final(data)@[m as int],
                    )
                &&& forall|j: int|
                    m < j < hi ==> le_by(
                        *cmp,
                        final(data)@[m as int],
                        #[trigger] final(data)@[j],
                    )
            }
        }),
{
    let ghost pre = data@;
    let m = partition(data, lo, hi, pred);
    if m == lo || m == hi {
        let ghost mid1 = data@;
        let r = split_equal_counts(data, lo, hi, cmp);
        proof {
            lemma_splits_range_trans(pre, mid1, data@, lo as int, hi as int);
        }
        r
    } else {
        m
    }
}

/// A tree node: a leaf addressing a contiguous object range, or a branch
/// addressing an entry of the branch array.
#[derive(Debug, Clone, Copy)]
pub enum Node {
    Leaf { offset: u32, length: u16 },
    Branch { idx: u32 },
}

/// A branch: up to eight children, and one bounding box per child slot.
/// Unused slots hold empty leaves and a padding box.
pub struct Branch<A> {
    pub boxes: Vec<A>,
    pub children: Vec<Node>,
}

/// An object's split-time record: the caller's per-object data (centroid and
/// bounds, say) together with the index the object held before building.
#[derive(Debug, Clone, Copy)]
pub struct Tagged<I> {
    pub info: I,
    pub idx: usize,
}

/// The mathematical tree a node array encodes: the ghost mirror against
/// which the flat representation is checked.
pub enum Shape {
    Leaf { offset: int, length: int },
    Branch { idx: int, subs: Seq<Shape> },
}

/// The flat node `node`, read against the branch array, encodes the tree
/// `shape`.
pub open spec fn node_matches<A>(branches: Seq<Branch<A>>, node: Node, shape: Shape) -> bool
    decreases shape,
{
    match shape {
        Shape::Leaf { offset, length } => match node {
            Node::Leaf { offset: o, length: l } => o as int == offset && l as int == length,
            _ => false,
        },
        Shape::Branch { idx, subs } => match node {
            Node::Branch { idx: i } => {
                &&& i as int == idx
                &&& 0 <= idx < branches.len()
                &&& branches[idx].children@.len() == 8
                &&& branches[idx].boxes@.len() == 8
                &&& subs.len() == 8
                &&& forall|k: int|
                    0 <= k < 8 ==> node_matches(
                        branches,
                        branches[idx].children@[k],
                        #[trigger] subs[k],
                    )
            },
            _ => false,
        },
    }
}

/// Every branch index the tree mentions lies in `[s, e)`.
pub open spec fn shape_in_range(shape: Shape, s: int, e: int) -> bool
    decreases shape,
{
    match shape {
        Shape::Leaf { .. } => true,
        Shape::Branch { idx, subs } => {
            &&& s <= idx < e
            &&& forall|k: int| 0 <= k < subs.len() ==> shape_in_range(#[trigger] subs[k], s, e)
        },
    }
}

/// The leaf ranges of the tree, in depth-first order, empty leaves left out.
/// Each entry is an offset and a positive length.
pub open spec fn shape_leaves(shape: Shape) -> Seq<(int, int)>
    decreases shape, 0int,
{
    match shape {
        Shape::Leaf { offset, length } => if length == 0 {
            seq![]
        } else {
            seq![(offset, length)]
        },
        Shape::Branch { idx: _, subs } => shapes_leaves(subs, 0),
    }
}

/// The leaf ranges of the trees `shapes[k..]`, concatenated in order.
pub open spec fn shapes_leaves(shapes: Seq<Shape>, k: int) -> Seq<(int, int)>
    decreases shapes, shapes.len() - k, 1int,
{
    if 0 <= k < shapes.len() {
        shape_leaves(shapes[k]) + shapes_leaves(shapes, k + 1)
    } else {
        seq![]
    }
}

/// The ranges run back to back across exactly `[lo, hi)`: first at `lo`,
/// each starting where the one before ended, the last ending at `hi`.
pub open spec fn covers(ls: Seq<(int, int)>, lo: int, hi: int) -> bool
    decreases ls.len(),
{
    if ls.len() == 0 {
        lo == hi
    } else {
        ls[0].0 == lo && ls[0].1 > 0 && covers(ls.drop_first(), lo + ls[0].1, hi)
    }
}

/// Ranges covering `[a, b)` followed by ranges covering `[b, c)` cover
/// `[a, c)`.
proof fn lemma_covers_concat(l1: Seq<(int, int)>, l2: Seq<(int, int)>, a: int, b: int, c: int)
    requires
        covers(l1, a, b),
        covers(l2, b, c),
    ensures
        covers(l1 + l2, a, c),
    decreases l1.len(),
{
    if l1.len() == 0 {
        assert(l1 + l2 =~= l2);
    } else {
        lemma_covers_concat(l1.drop_first(), l2, a + l1[0].1, b, c);
        assert((l1 + l2).drop_first() =~= l1.drop_first() + l2);
    }
}

/// A covering of `[lo, hi)` stays inside it, and `lo` cannot exceed `hi`.
proof fn lemma_covers_bounds(ls: Seq<(int, int)>, lo: int, hi: int)
    requires
        covers(ls, lo, hi),
    ensures
        lo <= hi,
        forall|k: int|
            0 <= k < ls.len() ==> lo <= (#[trigger] ls[k]).0 && ls[k].0 + ls[k].1 <= hi,
    decreases ls.len(),
{
    if ls.len() > 0 {
        lemma_covers_bounds(ls.drop_first(), lo + ls[0].1, hi);
        assert forall|k: int| 0 <= k < ls.len() implies lo <= (#[trigger] ls[k]).0 && ls[k].0
            + ls[k].1 <= hi by {
            if k > 0 {
                assert(ls.drop_first()[k - 1] == ls[k]);
            }
        }
    }
}

/// Matching survives changes to the branch array outside `[s, e)`: a
/// subtree mentions only its own branch entries.
proof fn lemma_matches_frame<A>(
    b1: Seq<Branch<A>>,
    b2: Seq<Branch<A>>,
    node: Node,
    shape: Shape,
    s: int,
    e: int,
)
    requires
        node_matches(b1, node, shape),
        shape_in_range(shape, s, e),
        e <= b1.len(),
        e <= b2.len(),
        forall|j: int| s <= j < e ==> b2[j] == b1[j],
    ensures
        node_matches(b2, node, shape),
    decreases shape,
{
    match shape {
        Shape::Leaf { .. } => {},
        Shape::Branch { idx, subs } => {
            assert forall|k: int| 0 <= k < 8 implies node_matches(
                b2,
                b2[idx].children@[k],
                #[trigger] subs[k],
            ) by {
                lemma_matches_frame(b1, b2, b1[idx].children@[k], subs[k], s, e);
            }
        },
    }
}

/// A tree inside `[a, b)` is inside any wider window.
proof fn lemma_shape_in_range_widen(shape: Shape, a: int, b: int, a2: int, b2: int)
    requires
        shape_in_range(shape, a, b),
        a2 <= a,
        b <= b2,
    ensures
        shape_in_range(shape, a2, b2),
    decreases shape,
{
    match shape {
        Shape::Leaf { .. } => {},
        Shape::Branch { idx, subs } => {
            assert forall|k: int| 0 <= k < subs.len() implies shape_in_range(
                #[trigger] subs[k],
                a2,
                b2,
            ) by {
                lemma_shape_in_range_widen(subs[k], a, b, a2, b2);
            }
        },
    }
}

/// Appending a tree's leaves to a list of leaves appends them to the
/// flattened list.
proof fn lemma_shapes_leaves_push(shapes: Seq<Shape>, x: Shape, k: int)
    requires
        0 <= k <= shapes.len(),
    ensures
        shapes_leaves(shapes.push(x), k) == shapes_leaves(shapes, k) + shape_leaves(x),
    decreases shapes.len() - k,
{
    if k == shapes.len() {
        assert(shapes.push(x)[k] == x);
        assert(shapes_leaves(shapes.push(x), k) == shape_leaves(x) + shapes_leaves(
            shapes.push(x),
            k + 1,
        ));
        assert(shapes_leaves(shapes.push(x), k + 1) =~= Seq::<(int, int)>::empty());
        assert(shape_leaves(x) + Seq::<(int, int)>::empty() =~= shape_leaves(x));
        assert(shapes_leaves(shapes, k) =~= Seq::<(int, int)>::empty());
        assert(Seq::<(int, int)>::empty() + shape_leaves(x) =~= shape_leaves(x));
    } else {
        lemma_shapes_leaves_push(shapes, x, k + 1);
        assert(shapes.push(x)[k] == shapes[k]);
        assert(shape_leaves(shapes[k]) + (shapes_leaves(shapes, k + 1) + shape_leaves(x))
            =~= (shape_leaves(shapes[k]) + shapes_leaves(shapes, k + 1)) + shape_leaves(x));
    }
}

/// The split-choosing closure can be called on any range of the working
/// vector. The vector travels through the closure by value and comes back.
pub open spec fn splitter_requires<I, FS: Fn(Vec<Tagged<I>>, usize, usize) -> (
    Vec<Tagged<I>>,
    usize,
)>(sah: FS) -> bool {
    forall|v: Vec<Tagged<I>>, a: usize, b: usize|
        a <= b && b <= v@.len() ==> #[trigger] call_requires(sah, (v, a, b))
}

/// Whatever range the split-choosing closure is given, it only rearranges
/// that range and answers with a cut inside it, strict for two or more
/// elements. This is what the surface-area-heuristic splitter provides.
pub open spec fn splitter_ensures<I, FS: Fn(Vec<Tagged<I>>, usize, usize) -> (
    Vec<Tagged<I>>,
    usize,
)>(sah: FS) -> bool {
    forall|v: Vec<Tagged<I>>, a: usize, b: usize, r: (Vec<Tagged<I>>, usize)|
        #[trigger] call_ensures(sah, (v, a, b), r) && a <= b && b <= v@.len() ==> {
            &&& splits_range(v@, r.0@, a as int, b as int)
            &&& a <= r.1 <= b
            &&& (b - a >= 2 ==> a < r.1 && r.1 < b)
        }
}

/// Cuts a range in two: trivially for fewer than three elements, through the
/// caller's split heuristic otherwise.
fn split<I, FS: Fn(Vec<Tagged<I>>, usize, usize) -> (Vec<Tagged<I>>, usize)>(
    data: Vec<Tagged<I>>,
    lo: usize,
    hi: usize,
    sah: &FS,
) -> (res: (Vec<Tagged<I>>, usize))
    requires
        lo <= hi <= data@.len(),
        splitter_requires(*sah),
        splitter_ensures(*sah),
    ensures
        res.0@.len() == data@.len(),
        splits_range(data@, res.0@, lo as int, hi as int),
        lo <= res.1 <= hi,
        hi - lo >= 2 ==> lo < res.1 < hi,
        hi - lo <= 1 ==> res.1 == hi,
{
    let n = hi - lo;
    if n <= 1 {
        (data, hi)
    } else if n == 2 {
        (data, lo + 1)
    } else {
        sah(data, lo, hi)
    }
}

/// Cuts a range into eight consecutive parts by three levels of halving,
/// every part strictly smaller than the whole.
fn split8<I, FS: Fn(Vec<Tagged<I>>, usize, usize) -> (Vec<Tagged<I>>, usize)>(
    data: Vec<Tagged<I>>,
    lo: usize,
    hi: usize,
    sah: &FS,
) -> (res: (Vec<Tagged<I>>, [usize; 9]))
    requires
        lo <= hi <= data@.len(),
        hi - lo >= 2,
        splitter_requires(*sah),
        splitter_ensures(*sah),
    ensures
        res.0@.len() == data@.len(),
        splits_range(data@, res.0@, lo as int, hi as int),
        res.1[0] == lo,
        res.1[8] == hi,
        lo < res.1[4] < hi,
        forall|k: int| 0 <= k < 8 ==> #[trigger] res.1[k] <= res.1[k + 1],
        forall|k: int| 0 <= k < 8 ==> res.1[k + 1] - #[trigger] res.1[k] < hi - lo,
{
    let ghost d0 = data@;
    let (data, c4) = split(data, lo, hi, sah);
    let ghost d1 = data@;
    let (data, c2) = split(data, lo, c4, sah);
    let ghost d2 = data@;
    let (data, c6) = split(data, c4, hi, sah);
    let ghost d3 = data@;
    let (data, c1) = split(data, lo, c2, sah);
    let ghost d4 = data@;
    let (data, c3) = split(data, c2, c4, sah);
    let ghost d5 = data@;
    let (data, c5) = split(data, c4, c6, sah);
    let ghost d6 = data@;
    let (data, c7) = split(data, c6, hi, sah);
    proof {
        let l = lo as int;
        let h = hi as int;
        lemma_splits_range_widen(d1, d2, l, h, l, c4 as int);
        lemma_splits_range_widen(d2, d3, l, h, c4 as int, h);
        lemma_splits_range_widen(d3, d4, l, h, l, c2 as int);
        lemma_splits_range_widen(d4, d5, l, h, c2 as int, c4 as int);
        lemma_splits_range_widen(d5, d6, l, h, c4 as int, c6 as int);
        lemma_splits_range_widen(d6, data@, l, h, c6 as int, h);
        lemma_splits_range_trans(d0, d1, d2, l, h);
        lemma_splits_range_trans(d0, d2, d3, l, h);
        lemma_splits_range_trans(d0, d3, d4, l, h);
        lemma_splits_range_trans(d0, d4, d5, l, h);
        lemma_splits_range_trans(d0, d5, d6, l, h);
        lemma_splits_range_trans(d0, d6, data@, l, h);
    }
    (data, [lo, c1, c2, c3, c4, c5, c6, c7, hi])
}

/// A leaf over `[lo, hi)`: its box is the merge of its objects' boxes, or
/// the padding box when the range is empty.
fn build_leaf<I: Copy, A: Copy, FB: Fn(I) -> A, FM: Fn(A, A) -> A>(
    data: &Vec<Tagged<I>>,
    lo: usize,
    hi: usize,
    box_of: &FB,
    merge: &FM,
    empty: A,
) -> (res: (Node, A, usize, Ghost<Shape>))
    requires
        lo <= hi <= data@.len(),
        hi - lo <= 1,
        data@.len() <= u32::MAX,
        forall|i: I| #[trigger] call_requires(*box_of, (i,)),
        forall|x: A, y: A| #[trigger] call_requires(*merge, (x, y)),
    ensures
        res.0 == (Node::Leaf { offset: lo as u32, length: (hi - lo) as u16 }),
        res.2 == 0,
        hi == lo ==> res.1 == empty,
        hi - lo == 1 ==> (exists|b0: A|
            #[trigger] chain_state(b0) && call_ensures(*box_of, (data@[lo as int].info,), b0)
                && res.1 == b0),
        res.3@ == (Shape::Leaf { offset: lo as int, length: (hi - lo) as int }),
        covers(shape_leaves(res.3@), lo as int, hi as int),
{
    let mut aabb: Option<A> = None;
    for k in lo..hi
        invariant
            lo <= k <= hi,
            hi <= data@.len(),
            k == lo ==> aabb is None,
            hi - lo == 1 && k == hi ==> (exists|b0: A|
                #[trigger] chain_state(b0) && call_ensures(*box_of, (data@[lo as int].info,), b0)
                    && aabb == Some(b0)),
            forall|i: I| #[trigger] call_requires(*box_of, (i,)),
            forall|x: A, y: A| #[trigger] call_requires(*merge, (x, y)),
    {
        let b = box_of(data[k].info);
        proof {
            assert(chain_state(b));
        }
        aabb = match aabb {
            None => Some(b),
            Some(x) => Some(merge(x, b)),
        };
    }
    let aabb = match aabb {
        Some(x) => x,
        None => empty,
    };
    let node = Node::Leaf { offset: lo as u32, length: (hi - lo) as u16 };
    let ghost shape = Shape::Leaf { offset: lo as int, length: (hi - lo) as int };
    proof {
        if hi == lo {
            assert(covers(shape_leaves(shape), lo as int, hi as int));
        } else {
            let ls = shape_leaves(shape);
            assert(ls == seq![(lo as int, (hi - lo) as int)]);
            assert(ls.drop_first() =~= Seq::<(int, int)>::empty());
            assert(covers(ls.drop_first(), lo as int + (hi - lo) as int, hi as int));
        }
    }
    (node, aabb, 0, Ghost(shape))
}

/// Trailing empty leaves contribute nothing to the leaf list.
proof fn lemma_shapes_leaves_pad(shapes: Seq<Shape>, n: nat)
    ensures
        shapes_leaves(
            shapes + Seq::new(n, |i: int| Shape::Leaf { offset: 0, length: 0 }),
            0,
        ) == shapes_leaves(shapes, 0),
    decreases n,
{
    let pad0 = Shape::Leaf { offset: 0, length: 0 };
    if n == 0 {
        assert(shapes + Seq::new(0, |i: int| Shape::Leaf { offset: 0, length: 0 }) =~= shapes);
    } else {
        assert(shapes + Seq::new(n, |i: int| Shape::Leaf { offset: 0, length: 0 })
            =~= shapes.push(pad0) + Seq::new(
            (n - 1) as nat,
            |i: int| Shape::Leaf { offset: 0, length: 0 },
        ));
        lemma_shapes_leaves_pad(shapes.push(pad0), (n - 1) as nat);
        lemma_shapes_leaves_push(shapes, pad0, 0);
        assert(shape_leaves(pad0) =~= Seq::<(int, int)>::empty());
        assert(shapes_leaves(shapes, 0) + Seq::<(int, int)>::empty() =~= shapes_leaves(
            shapes,
            0,
        ));
    }
}


/// An empty leaf: the padding shape of unused child slots.
pub open spec fn shape_is_empty_leaf(s: Shape) -> bool {
    match s {
        Shape::Leaf { offset: _, length } => length == 0,
        _ => false,
    }
}

/// Folding the first `j` child boxes with the merge closure yields `acc`.
pub open spec fn boxes_fold_to<A, FM: Fn(A, A) -> A>(
    merge: FM,
    boxes: Seq<A>,
    j: int,
    acc: A,
) -> bool
    decreases j,
{
    if j <= 0 {
        false
    } else if j == 1 {
        0 < boxes.len() && acc == boxes[0]
    } else {
        j <= boxes.len() && exists|prev: A|
            #[trigger] chain_state(prev) && boxes_fold_to(merge, boxes, j - 1, prev)
                && call_ensures(merge, (prev, boxes[j - 1]), acc)
    }
}

/// Folding the child boxes of slots `k` to `7` onto `acc` with the merge
/// closure — padding slots skipped — yields `bx`.
pub open spec fn branch_box_fold<A, FM: Fn(A, A) -> A>(
    merge: FM,
    subs: Seq<Shape>,
    boxes: Seq<A>,
    k: int,
    acc: Option<A>,
    bx: A,
) -> bool
    decreases 8 - k,
{
    if k >= 8 {
        acc == Some(bx)
    } else if !(0 <= k < subs.len() && k < boxes.len()) {
        false
    } else if shape_is_empty_leaf(subs[k]) {
        branch_box_fold(merge, subs, boxes, k + 1, acc, bx)
    } else {
        match acc {
            None => branch_box_fold(merge, subs, boxes, k + 1, Some(boxes[k]), bx),
            Some(a) => exists|m: A|
                #[trigger] chain_state(m) && call_ensures(merge, (a, boxes[k]), m)
                    && branch_box_fold(merge, subs, boxes, k + 1, Some(m), bx),
        }
    }
}

/// The box side of the tree: every leaf spans at most one object — its box
/// answered by the box closure for the record resting at its position, or
/// the padding box when it spans none; every branch stores one box per
/// child slot, each the child's own box under this same discipline, and the
/// branch's box is the merge closure folded over the non-padding slot boxes
/// in slot order.
pub open spec fn node_box_ok<I, A, FB: Fn(I) -> A, FM: Fn(A, A) -> A>(
    box_of: FB,
    merge: FM,
    recs: Seq<Tagged<I>>,
    empty: A,
    branches: Seq<Branch<A>>,
    shape: Shape,
    bx: A,
) -> bool
    decreases shape,
{
    match shape {
        Shape::Leaf { offset, length } => {
            &&& 0 <= length <= 1
            &&& (length == 0 ==> bx == empty)
            &&& (length == 1 ==> 0 <= offset < recs.len() && (exists|b0: A|
                #[trigger] chain_state(b0) && call_ensures(box_of, (recs[offset].info,), b0)
                    && bx == b0))
        },
        Shape::Branch { idx, subs } => {
            &&& 0 <= idx < branches.len()
            &&& branches[idx].boxes@.len() == 8
            &&& subs.len() == 8
            &&& forall|k: int|
                0 <= k < 8 ==> node_box_ok(
                    box_of,
                    merge,
                    recs,
                    empty,
                    branches,
                    #[trigger] subs[k],
                    branches[idx].boxes@[k],
                )
            &&& branch_box_fold(merge, subs, branches[idx].boxes@, 0, Option::None, bx)
        },
    }
}

/// The box discipline survives changes to the branch array outside `[s, e)`.
proof fn lemma_box_ok_frame<I, A, FB: Fn(I) -> A, FM: Fn(A, A) -> A>(
    box_of: FB,
    merge: FM,
    recs: Seq<Tagged<I>>,
    empty: A,
    b1: Seq<Branch<A>>,
    b2: Seq<Branch<A>>,
    shape: Shape,
    bx: A,
    s: int,
    e: int,
)
    requires
        node_box_ok(box_of, merge, recs, empty, b1, shape, bx),
        shape_in_range(shape, s, e),
        e <= b1.len(),
        e <= b2.len(),
        forall|j: int| s <= j < e ==> b2[j] == b1[j],
    ensures
        node_box_ok(box_of, merge, recs, empty, b2, shape, bx),
    decreases shape,
{
    match shape {
        Shape::Leaf { .. } => {},
        Shape::Branch { idx, subs } => {
            assert forall|k: int| 0 <= k < 8 implies node_box_ok(
                box_of,
                merge,
                recs,
                empty,
                b2,
                #[trigger] subs[k],
                b2[idx].boxes@[k],
            ) by {
                lemma_box_ok_frame(
                    box_of,
                    merge,
                    recs,
                    empty,
                    b1,
                    b2,
                    subs[k],
                    b1[idx].boxes@[k],
                    s,
                    e,
                );
            }
        },
    }
}

/// The box discipline reads the records only inside the tree's own span:
/// it survives record changes outside `[lo, hi)`.
proof fn lemma_box_ok_recs_frame<I, A, FB: Fn(I) -> A, FM: Fn(A, A) -> A>(
    box_of: FB,
    merge: FM,
    recs1: Seq<Tagged<I>>,
    recs2: Seq<Tagged<I>>,
    empty: A,
    branches: Seq<Branch<A>>,
    shape: Shape,
    bx: A,
    lo: int,
    hi: int,
)
    requires
        node_box_ok(box_of, merge, recs1, empty, branches, shape, bx),
        covers(shape_leaves(shape), lo, hi),
        recs2.len() == recs1.len(),
        forall|p: int| lo <= p < hi ==> recs2[p] == recs1[p],
    ensures
        node_box_ok(box_of, merge, recs2, empty, branches, shape, bx),
    decreases shape, 0int,
{
    match shape {
        Shape::Leaf { offset, length } => {
            if length == 1 {
                let ls = shape_leaves(shape);
                assert(ls[0] == (offset, length));
                assert(ls.drop_first() =~= Seq::<(int, int)>::empty());
                assert(covers(ls.drop_first(), lo + length, hi));
                assert(offset == lo && lo + 1 == hi);
                assert(recs2[offset] == recs1[offset]);
            }
        },
        Shape::Branch { idx, subs } => {
            lemma_list_box_ok_recs_frame(
                box_of,
                merge,
                recs1,
                recs2,
                empty,
                branches,
                subs,
                branches[idx].boxes@,
                0,
                lo,
                hi,
            );
        },
    }
}

/// The list form of `lemma_box_ok_recs_frame`, over `subs[k..]` and their
/// stored slot boxes.
proof fn lemma_list_box_ok_recs_frame<I, A, FB: Fn(I) -> A, FM: Fn(A, A) -> A>(
    box_of: FB,
    merge: FM,
    recs1: Seq<Tagged<I>>,
    recs2: Seq<Tagged<I>>,
    empty: A,
    branches: Seq<Branch<A>>,
    subs: Seq<Shape>,
    boxes: Seq<A>,
    k: int,
    lo: int,
    hi: int,
)
    requires
        0 <= k <= subs.len(),
        subs.len() <= boxes.len(),
        covers(shapes_leaves(subs, k), lo, hi),
        recs2.len() == recs1.len(),
        forall|p: int| lo <= p < hi ==> recs2[p] == recs1[p],
        forall|j: int|
            k <= j < subs.len() ==> node_box_ok(
                box_of,
                merge,
                recs1,
                empty,
                branches,
                #[trigger] subs[j],
                boxes[j],
            ),
    ensures
        forall|j: int|
            k <= j < subs.len() ==> node_box_ok(
                box_of,
                merge,
                recs2,
                empty,
                branches,
                #[trigger] subs[j],
                boxes[j],
            ),
    decreases subs, subs.len() - k, 1int,
{
    if k < subs.len() {
        let m = lemma_covers_split(shape_leaves(subs[k]), shapes_leaves(subs, k + 1), lo, hi);
        lemma_covers_bounds(shape_leaves(subs[k]), lo, m);
        lemma_covers_bounds(shapes_leaves(subs, k + 1), m, hi);
        lemma_box_ok_recs_frame(
            box_of,
            merge,
            recs1,
            recs2,
            empty,
            branches,
            subs[k],
            boxes[k],
            lo,
            m,
        );
        lemma_list_box_ok_recs_frame(
            box_of,
            merge,
            recs1,
            recs2,
            empty,
            branches,
            subs,
            boxes,
            k + 1,
            m,
            hi,
        );
    }
}

/// A prefix fold only reads the prefix.
proof fn lemma_fold_to_frame<A, FM: Fn(A, A) -> A>(
    merge: FM,
    b1: Seq<A>,
    b2: Seq<A>,
    j: int,
    acc: A,
)
    requires
        boxes_fold_to(merge, b1, j, acc),
        j <= b2.len(),
        forall|k: int| 0 <= k < j ==> b2[k] == b1[k],
    ensures
        boxes_fold_to(merge, b2, j, acc),
    decreases j,
{
    if j > 1 {
        let prev = choose|prev: A|
            #[trigger] chain_state(prev) && boxes_fold_to(merge, b1, j - 1, prev)
                && call_ensures(merge, (prev, b1[j - 1]), acc);
        lemma_fold_to_frame(merge, b1, b2, j - 1, prev);
    }
}

/// Padding slots leave the accumulated box as the result.
proof fn lemma_fold_pads<A, FM: Fn(A, A) -> A>(
    merge: FM,
    subs: Seq<Shape>,
    boxes: Seq<A>,
    k: int,
    bx: A,
)
    requires
        0 <= k <= 8,
        subs.len() == 8,
        boxes.len() == 8,
        forall|kk: int| k <= kk < 8 ==> shape_is_empty_leaf(#[trigger] subs[kk]),
    ensures
        branch_box_fold(merge, subs, boxes, k, Some(bx), bx),
    decreases 8 - k,
{
    if k < 8 {
        lemma_fold_pads(merge, subs, boxes, k + 1, bx);
    }
}

/// A completed prefix fold continues into a whole-branch fold.
proof fn lemma_fold_bridge<A, FM: Fn(A, A) -> A>(
    merge: FM,
    subs: Seq<Shape>,
    boxes: Seq<A>,
    j: int,
    acc: A,
    bx: A,
)
    requires
        1 <= j <= 8,
        subs.len() == 8,
        boxes.len() == 8,
        forall|kk: int| 0 <= kk < j ==> !shape_is_empty_leaf(#[trigger] subs[kk]),
        boxes_fold_to(merge, boxes, j, acc),
        branch_box_fold(merge, subs, boxes, j, Some(acc), bx),
    ensures
        branch_box_fold(merge, subs, boxes, 0, Option::None, bx),
    decreases j,
{
    if j == 1 {
        assert(acc == boxes[0]);
    } else {
        let prev = choose|prev: A|
            #[trigger] chain_state(prev) && boxes_fold_to(merge, boxes, j - 1, prev)
                && call_ensures(merge, (prev, boxes[j - 1]), acc);
        assert(chain_state(acc));
        assert(branch_box_fold(merge, subs, boxes, j - 1, Some(prev), bx));
        lemma_fold_bridge(merge, subs, boxes, j - 1, prev, bx);
    }
}

/// Builds the subtree over `[lo, hi)`: a leaf for one object or none, a
/// branch otherwise. Returns the working vector, the node, its bounding box,
/// the subtree depth, and the ghost tree it encodes.
fn build<
    I: Copy,
    A: Copy,
    FS: Fn(Vec<Tagged<I>>, usize, usize) -> (Vec<Tagged<I>>, usize),
    FB: Fn(I) -> A,
    FM: Fn(A, A) -> A,
>(
    data: Vec<Tagged<I>>,
    lo: usize,
    hi: usize,
    branches: &mut Vec<Branch<A>>,
    sah: &FS,
    box_of: &FB,
    merge: &FM,
    empty: A,
) -> (res: (Vec<Tagged<I>>, Node, A, usize, Ghost<Shape>))
    requires
        lo <= hi <= data@.len(),
        data@.len() <= u32::MAX,
        old(branches)@.len() + 2 * (hi - lo) + 2 <= u32::MAX,
        splitter_requires(*sah),
        splitter_ensures(*sah),
        forall|i: I| #[trigger] call_requires(*box_of, (i,)),
        forall|x: A, y: A| #[trigger] call_requires(*merge, (x, y)),
    ensures
        res.0@.len() == data@.len(),
        splits_range(data@, res.0@, lo as int, hi as int),
        final(branches)@.len() >= old(branches)@.len(),
        hi - lo >= 2 ==> final(branches)@.len() + 1 <= old(branches)@.len() + (hi - lo),
        hi - lo <= 1 ==> final(branches)@.len() == old(branches)@.len(),
        final(branches)@.subrange(0, old(branches)@.len() as int) == old(branches)@,
        node_matches(final(branches)@, res.1, res.4@),
        shape_in_range(res.4@, old(branches)@.len() as int, final(branches)@.len() as int),
        covers(shape_leaves(res.4@), lo as int, hi as int),
        node_box_ok(*box_of, *merge, res.0@, empty, final(branches)@, res.4@, res.2),
        res.3 == shape_height(res.4@),
        hi - lo > 0 ==> res.3 < hi - lo,
        hi == lo ==> res.3 == 0,
    decreases hi - lo, 1int,
{
    if hi - lo <= 1 {
        let r = build_leaf(&data, lo, hi, box_of, merge, empty);
        proof {
            assert(final(branches)@.subrange(0, old(branches)@.len() as int) =~= old(
                branches,
            )@);
            assert(splits_range(data@, data@, lo as int, hi as int));
            assert(node_box_ok(*box_of, *merge, data@, empty, branches@, r.3@, r.1));
        }
        (data, r.0, r.1, r.2, r.3)
    } else {
        build_branch(data, lo, hi, branches, sah, box_of, merge, empty)
    }
}

/// Builds a branch over `[lo, hi)`, two or more objects: cuts the range into
/// eight parts, recurses into the nonempty ones in order, and records each
/// child's box beside it. The branch's own entry is reserved first, so every
/// descendant lands at a higher index.
#[verifier::loop_isolation(false)]
#[verifier::rlimit(60)]
fn build_branch<
    I: Copy,
    A: Copy,
    FS: Fn(Vec<Tagged<I>>, usize, usize) -> (Vec<Tagged<I>>, usize),
    FB: Fn(I) -> A,
    FM: Fn(A, A) -> A,
>(
    data: Vec<Tagged<I>>,
    lo: usize,
    hi: usize,
    branches: &mut Vec<Branch<A>>,
    sah: &FS,
    box_of: &FB,
    merge: &FM,
    empty: A,
) -> (res: (Vec<Tagged<I>>, Node, A, usize, Ghost<Shape>))
    requires
        lo <= hi <= data@.len(),
        hi - lo >= 2,
        data@.len() <= u32::MAX,
        old(branches)@.len() + 2 * (hi - lo) + 2 <= u32::MAX,
        splitter_requires(*sah),
        splitter_ensures(*sah),
        forall|i: I| #[trigger] call_requires(*box_of, (i,)),
        forall|x: A, y: A| #[trigger] call_requires(*merge, (x, y)),
    ensures
        res.0@.len() == data@.len(),
        splits_range(data@, res.0@, lo as int, hi as int),
        final(branches)@.len() >= old(branches)@.len(),
        final(branches)@.len() + 1 <= old(branches)@.len() + (hi - lo),
        final(branches)@.subrange(0, old(branches)@.len() as int) == old(branches)@,
        node_matches(final(branches)@, res.1, res.4@),
        shape_in_range(res.4@, old(branches)@.len() as int, final(branches)@.len() as int),
        covers(shape_leaves(res.4@), lo as int, hi as int),
        node_box_ok(*box_of, *merge, res.0@, empty, final(branches)@, res.4@, res.2),
        res.3 == shape_height(res.4@),
        res.3 < hi - lo,
    decreases hi - lo, 0int,
{
    let ghost d0 = data@;
    let (data, cuts) = split8(data, lo, hi, sah);
    let mut data = data;
    let ghost d_split = data@;
    let ghost entry_len = branches@.len() as int;

    let own_idx = branches.len();
    let mut placeholder_boxes: Vec<A> = Vec::new();
    let mut placeholder_children: Vec<Node> = Vec::new();
    let mut child_boxes: Vec<A> = Vec::new();
    let mut child_nodes: Vec<Node> = Vec::new();
    for k in 0..8usize
        invariant
            placeholder_boxes@.len() == k,
            placeholder_children@.len() == k,
            child_boxes@.len() == k,
            child_nodes@.len() == k,
            forall|j: int|
                0 <= j < k ==> child_nodes@[j] == (Node::Leaf { offset: 0u32, length: 0u16 }),
            forall|j: int| 0 <= j < k ==> child_boxes@[j] == empty,
    {
        placeholder_boxes.push(empty);
        placeholder_children.push(Node::Leaf { offset: 0, length: 0 });
        child_boxes.push(empty);
        child_nodes.push(Node::Leaf { offset: 0, length: 0 });
    }
    branches.push(Branch { boxes: placeholder_boxes, children: placeholder_children });

    let mut child_slot: usize = 0;
    let mut aabb_opt: Option<A> = None;
    let mut max_d: usize = 0;
    let ghost mut subs: Seq<Shape> = Seq::empty();

    for k in 0..8usize
        invariant
            branches@.len() >= entry_len + 1,
            branches@.len() + child_slot <= entry_len + 1 + (cuts[k as int] - lo),
            own_idx == entry_len,
            branches@.subrange(0, entry_len) == old(branches)@,
            child_nodes@.len() == 8,
            child_boxes@.len() == 8,
            child_slot <= k,
            subs.len() == child_slot,
            forall|j: int|
                child_slot <= j < 8 ==> child_nodes@[j] == (Node::Leaf {
                    offset: 0u32,
                    length: 0u16,
                }),
            forall|j: int|
                0 <= j < child_slot ==> node_matches(
                    branches@,
                    child_nodes@[j],
                    #[trigger] subs[j],
                ),
            forall|j: int|
                0 <= j < child_slot ==> shape_in_range(
                    #[trigger] subs[j],
                    entry_len + 1,
                    branches@.len() as int,
                ),
            covers(shapes_leaves(subs, 0), lo as int, cuts[k as int] as int),
            data@.len() == d_split.len(),
            splits_range(d_split, data@, lo as int, hi as int),
            max_d + 1 < hi - lo,
            max_d == shapes_height(subs, 0),
            aabb_opt is Some <==> child_slot >= 1,
            forall|j: int| child_slot <= j < 8 ==> #[trigger] child_boxes@[j] == empty,
            forall|j: int|
                0 <= j < child_slot ==> node_box_ok(
                    *box_of,
                    *merge,
                    data@,
                    empty,
                    branches@,
                    #[trigger] subs[j],
                    child_boxes@[j],
                ),
            forall|j: int| 0 <= j < child_slot ==> !shape_is_empty_leaf(#[trigger] subs[j]),
            aabb_opt matches Some(acc) ==> boxes_fold_to(
                *merge,
                child_boxes@,
                child_slot as int,
                acc,
            ),
            cuts[k as int] > lo ==> child_slot >= 1,
            k >= 4 && cuts[k as int] > cuts[4] ==> child_slot >= 2,
    {
        let clo = cuts[k];
        let chi = cuts[k + 1];
        if chi > clo {
            let ghost data_before = data@;
            let ghost branches_before = branches@;
            let r = build(data, clo, chi, branches, sah, box_of, merge, empty);
            data = r.0;
            let child_node = r.1;
            let child_aabb = r.2;
            let child_depth = r.3;
            let ghost child_shape = r.4@;
            proof {
                lemma_splits_range_widen(
                    data_before,
                    data@,
                    lo as int,
                    hi as int,
                    clo as int,
                    chi as int,
                );
                lemma_splits_range_trans(d_split, data_before, data@, lo as int, hi as int);
                assert forall|j: int|
                    entry_len <= j < branches_before.len() implies branches@[j]
                    == branches_before[j] by {
                    assert(branches@.subrange(0, branches_before.len() as int)[j]
                        == branches@[j]);
                }
                assert forall|j: int| 0 <= j < child_slot implies node_matches(
                    branches@,
                    child_nodes@[j],
                    #[trigger] subs[j],
                ) by {
                    lemma_matches_frame(
                        branches_before,
                        branches@,
                        child_nodes@[j],
                        subs[j],
                        entry_len + 1,
                        branches_before.len() as int,
                    );
                }
                assert forall|j: int| 0 <= j < child_slot implies shape_in_range(
                    #[trigger] subs[j],
                    entry_len + 1,
                    branches@.len() as int,
                ) by {
                    lemma_shape_in_range_widen(
                        subs[j],
                        entry_len + 1,
                        branches_before.len() as int,
                        entry_len + 1,
                        branches@.len() as int,
                    );
                }
                lemma_shape_in_range_widen(
                    child_shape,
                    branches_before.len() as int,
                    branches@.len() as int,
                    entry_len + 1,
                    branches@.len() as int,
                );
                assert forall|j: int| 0 <= j < child_slot implies node_box_ok(
                    *box_of,
                    *merge,
                    data_before,
                    empty,
                    branches@,
                    #[trigger] subs[j],
                    child_boxes@[j],
                ) by {
                    lemma_box_ok_frame(
                        *box_of,
                        *merge,
                        data_before,
                        empty,
                        branches_before,
                        branches@,
                        subs[j],
                        child_boxes@[j],
                        entry_len + 1,
                        branches_before.len() as int,
                    );
                }
                assert forall|p: int| lo <= p < clo implies data@[p] == data_before[p] by {
                    assert(data@.subrange(0, clo as int)[p] == data@[p]);
                    assert(data_before.subrange(0, clo as int)[p] == data_before[p]);
                }
                lemma_list_box_ok_recs_frame(
                    *box_of,
                    *merge,
                    data_before,
                    data@,
                    empty,
                    branches@,
                    subs,
                    child_boxes@,
                    0,
                    lo as int,
                    clo as int,
                );
                assert(!shape_is_empty_leaf(child_shape)) by {
                    if shape_is_empty_leaf(child_shape) {
                        assert(shape_leaves(child_shape) =~= Seq::<(int, int)>::empty());
                        assert(covers(shape_leaves(child_shape), clo as int, chi as int));
                    }
                }
                lemma_shapes_leaves_push(subs, child_shape, 0);
                lemma_covers_concat(
                    shapes_leaves(subs, 0),
                    shape_leaves(child_shape),
                    lo as int,
                    clo as int,
                    chi as int,
                );
                assert(branches@.subrange(0, entry_len) =~= branches_before.subrange(
                    0,
                    entry_len,
                ));
            }
            child_nodes[child_slot] = child_node;
            let ghost boxes_before_write = child_boxes@;
            child_boxes[child_slot] = child_aabb;
            proof {
                lemma_shapes_height_push(subs, child_shape, 0);
                subs = subs.push(child_shape);
            }
            aabb_opt = match aabb_opt {
                None => {
                    proof {
                        assert(child_boxes@[0] == child_aabb);
                        assert(boxes_fold_to(*merge, child_boxes@, 1, child_aabb));
                    }
                    Some(child_aabb)
                },
                Some(x) => {
                    let merged = merge(x, child_aabb);
                    proof {
                        assert(chain_state(x));
                        lemma_fold_to_frame(
                            *merge,
                            boxes_before_write,
                            child_boxes@,
                            child_slot as int,
                            x,
                        );
                        assert(child_boxes@[child_slot as int] == child_aabb);
                        assert(boxes_fold_to(
                            *merge,
                            child_boxes@,
                            child_slot as int + 1,
                            merged,
                        ));
                    }
                    Some(merged)
                },
            };
            if child_depth > max_d {
                max_d = child_depth;
            }
            child_slot = child_slot + 1;
        }
    }

    let aabb = match aabb_opt {
        Some(x) => x,
        None => empty,
    };
    let ghost branches_at_end = branches@;
    branches[own_idx] = Branch { boxes: child_boxes, children: child_nodes };
    let node = Node::Branch { idx: own_idx as u32 };
    let ghost padded = subs + Seq::new(
        (8 - child_slot) as nat,
        |i: int| Shape::Leaf { offset: 0, length: 0 },
    );
    let ghost shape = Shape::Branch { idx: entry_len, subs: padded };
    proof {
        assert(child_slot >= 2);
        assert forall|j: int|
            entry_len + 1 <= j < branches_at_end.len() implies branches@[j]
            == branches_at_end[j] by {}
        assert forall|j: int| 0 <= j < child_slot implies node_matches(
            branches@,
            branches@[entry_len].children@[j],
            #[trigger] padded[j],
        ) by {
            assert(padded[j] == subs[j]);
            lemma_matches_frame(
                branches_at_end,
                branches@,
                branches@[entry_len].children@[j],
                subs[j],
                entry_len + 1,
                branches_at_end.len() as int,
            );
        }
        assert forall|j: int| child_slot <= j < 8 implies node_matches(
            branches@,
            branches@[entry_len].children@[j],
            #[trigger] padded[j],
        ) by {
            assert(padded[j] == Seq::new(
                (8 - child_slot) as nat,
                |i: int| Shape::Leaf { offset: 0, length: 0 },
            )[j - child_slot]);
        }
        assert(node_matches(branches@, node, shape));
        assert forall|j: int| 0 <= j < padded.len() implies shape_in_range(
            #[trigger] padded[j],
            entry_len,
            branches@.len() as int,
        ) by {
            if j < child_slot {
                assert(padded[j] == subs[j]);
                lemma_shape_in_range_widen(
                    subs[j],
                    entry_len + 1,
                    branches@.len() as int,
                    entry_len,
                    branches@.len() as int,
                );
            } else {
                assert(padded[j] == Seq::new(
                    (8 - child_slot) as nat,
                    |i: int| Shape::Leaf { offset: 0, length: 0 },
                )[j - child_slot]);
            }
        }
        assert(shape_in_range(shape, entry_len, branches@.len() as int));
        lemma_shapes_leaves_pad(subs, (8 - child_slot) as nat);
        assert(covers(shape_leaves(shape), lo as int, hi as int));
        lemma_shapes_height_pad(subs, (8 - child_slot) as nat);
        assert(shape_height(shape) == 1 + max_d);
        assert(branches@[entry_len].boxes@ == child_boxes@);
        assert forall|j: int| 0 <= j < 8 implies node_box_ok(
            *box_of,
            *merge,
            data@,
            empty,
            branches@,
            #[trigger] padded[j],
            branches@[entry_len].boxes@[j],
        ) by {
            if j < child_slot {
                assert(padded[j] == subs[j]);
                lemma_box_ok_frame(
                    *box_of,
                    *merge,
                    data@,
                    empty,
                    branches_at_end,
                    branches@,
                    subs[j],
                    child_boxes@[j],
                    entry_len + 1,
                    branches_at_end.len() as int,
                );
            } else {
                assert(padded[j] == Seq::new(
                    (8 - child_slot) as nat,
                    |i: int| Shape::Leaf { offset: 0, length: 0 },
                )[j - child_slot]);
                assert(child_boxes@[j] == empty);
            }
        }
        assert(boxes_fold_to(*merge, child_boxes@, child_slot as int, aabb));
        assert forall|kk: int| child_slot <= kk < 8 implies shape_is_empty_leaf(
            #[trigger] padded[kk],
        ) by {
            assert(padded[kk] == Seq::new(
                (8 - child_slot) as nat,
                |i: int| Shape::Leaf { offset: 0, length: 0 },
            )[kk - child_slot]);
        }
        assert forall|kk: int| 0 <= kk < child_slot implies !shape_is_empty_leaf(
            #[trigger] padded[kk],
        ) by {
            assert(padded[kk] == subs[kk]);
        }
        lemma_fold_pads(*merge, padded, child_boxes@, child_slot as int, aabb);
        lemma_fold_bridge(*merge, padded, child_boxes@, child_slot as int, aabb, aabb);
        assert(node_box_ok(*box_of, *merge, data@, empty, branches@, shape, aabb));
        assert(branches@.subrange(0, entry_len) =~= branches_at_end.subrange(0, entry_len));
    }
    (data, node, aabb, max_d + 1, Ghost(shape))
}

/// Every leaf of the tree addresses objects below `n`.
pub open spec fn shape_bounded(shape: Shape, n: int) -> bool
    decreases shape,
{
    match shape {
        Shape::Leaf { offset, length } => length > 0 ==> 0 <= offset && 0 <= length && offset
            + length <= n,
        Shape::Branch { idx: _, subs } => forall|k: int|
            0 <= k < subs.len() ==> shape_bounded(#[trigger] subs[k], n),
    }
}

/// A list of back-to-back ranges splits at any prefix: the prefix covers up
/// to some midpoint and the rest covers onward.
proof fn lemma_covers_split(l1: Seq<(int, int)>, l2: Seq<(int, int)>, a: int, c: int) -> (b: int)
    requires
        covers(l1 + l2, a, c),
    ensures
        covers(l1, a, b),
        covers(l2, b, c),
    decreases l1.len(),
{
    if l1.len() == 0 {
        assert(l1 + l2 =~= l2);
        a
    } else {
        assert((l1 + l2)[0] == l1[0]);
        assert((l1 + l2).drop_first() =~= l1.drop_first() + l2);
        let b = lemma_covers_split(l1.drop_first(), l2, a + l1[0].1, c);
        b
    }
}

/// Trees whose leaves, in order, stay inside `[lo, hi)` with `hi` at most
/// `n` only address objects below `n`.
proof fn lemma_bounded_from_covers(shape: Shape, lo: int, hi: int, n: int)
    requires
        covers(shape_leaves(shape), lo, hi),
        0 <= lo,
        hi <= n,
    ensures
        shape_bounded(shape, n),
    decreases shape, 0int,
{
    match shape {
        Shape::Leaf { offset, length } => {
            if length != 0 {
                let ls = shape_leaves(shape);
                assert(ls[0] == (offset, length));
                assert(ls.drop_first() =~= Seq::<(int, int)>::empty());
                assert(covers(ls.drop_first(), lo + length, hi));
                assert(lo + length == hi);
            }
        },
        Shape::Branch { idx: _, subs } => {
            lemma_list_bounded_from_covers(subs, 0, lo, hi, n);
        },
    }
}

/// The list form of `lemma_bounded_from_covers`, over `shapes[k..]`.
proof fn lemma_list_bounded_from_covers(shapes: Seq<Shape>, k: int, lo: int, hi: int, n: int)
    requires
        0 <= k <= shapes.len(),
        covers(shapes_leaves(shapes, k), lo, hi),
        0 <= lo,
        hi <= n,
    ensures
        forall|j: int| k <= j < shapes.len() ==> shape_bounded(#[trigger] shapes[j], n),
    decreases shapes, shapes.len() - k, 1int,
{
    if k < shapes.len() {
        let m = lemma_covers_split(shape_leaves(shapes[k]), shapes_leaves(shapes, k + 1), lo, hi);
        lemma_covers_bounds(shape_leaves(shapes[k]), lo, m);
        lemma_covers_bounds(shapes_leaves(shapes, k + 1), m, hi);
        lemma_bounded_from_covers(shapes[k], lo, m, n);
        lemma_list_bounded_from_covers(shapes, k + 1, m, hi, n);
    }
}

/// The number of nodes in the tree; always at least one.
/// The height of the tree: zero at a leaf, one more than the tallest child
/// at a branch.
pub open spec fn shape_height(shape: Shape) -> nat
    decreases shape, 0int,
{
    match shape {
        Shape::Leaf { .. } => 0,
        Shape::Branch { idx: _, subs } => 1 + shapes_height(subs, 0),
    }
}

/// The tallest tree among `shapes[k..]`; zero past the end.
pub open spec fn shapes_height(shapes: Seq<Shape>, k: int) -> nat
    decreases shapes, shapes.len() - k, 1int,
{
    if 0 <= k < shapes.len() {
        if shape_height(shapes[k]) >= shapes_height(shapes, k + 1) {
            shape_height(shapes[k])
        } else {
            shapes_height(shapes, k + 1)
        }
    } else {
        0
    }
}

/// Appending a tree caps the list's height at the taller of the two.
proof fn lemma_shapes_height_push(shapes: Seq<Shape>, x: Shape, k: int)
    requires
        0 <= k <= shapes.len(),
    ensures
        shapes_height(shapes.push(x), k) == (if shapes_height(shapes, k) >= shape_height(x) {
            shapes_height(shapes, k)
        } else {
            shape_height(x)
        }),
    decreases shapes.len() - k,
{
    if k == shapes.len() {
        assert(shapes.push(x)[k] == x);
        assert(shapes_height(shapes.push(x), k + 1) == 0);
        assert(shapes_height(shapes, k) == 0);
    } else {
        lemma_shapes_height_push(shapes, x, k + 1);
        assert(shapes.push(x)[k] == shapes[k]);
    }
}

/// Trailing empty leaves do not change the list's height.
proof fn lemma_shapes_height_pad(shapes: Seq<Shape>, n: nat)
    ensures
        shapes_height(
            shapes + Seq::new(n, |i: int| Shape::Leaf { offset: 0, length: 0 }),
            0,
        ) == shapes_height(shapes, 0),
    decreases n,
{
    let pad0 = Shape::Leaf { offset: 0, length: 0 };
    if n == 0 {
        assert(shapes + Seq::new(0, |i: int| Shape::Leaf { offset: 0, length: 0 }) =~= shapes);
    } else {
        assert(shapes + Seq::new(n, |i: int| Shape::Leaf { offset: 0, length: 0 })
            =~= shapes.push(pad0) + Seq::new(
            (n - 1) as nat,
            |i: int| Shape::Leaf { offset: 0, length: 0 },
        ));
        lemma_shapes_height_pad(shapes.push(pad0), (n - 1) as nat);
        lemma_shapes_height_push(shapes, pad0, 0);
    }
}

/// The list's height is at least each member's.
proof fn lemma_shapes_height_ge(shapes: Seq<Shape>, j: int, k: int)
    requires
        0 <= j <= k < shapes.len(),
    ensures
        shapes_height(shapes, j) >= shape_height(shapes[k]),
    decreases k - j,
{
    if j < k {
        lemma_shapes_height_ge(shapes, j + 1, k);
    }
}

pub open spec fn shape_count(shape: Shape) -> nat
    decreases shape, 0int,
{
    match shape {
        Shape::Leaf { .. } => 1,
        Shape::Branch { idx: _, subs } => 1 + shapes_count(subs, 0),
    }
}

/// The number of nodes in the trees `shapes[k..]` together.
pub open spec fn shapes_count(shapes: Seq<Shape>, k: int) -> nat
    decreases shapes, shapes.len() - k, 1int,
{
    if 0 <= k < shapes.len() {
        shape_count(shapes[k]) + shapes_count(shapes, k + 1)
    } else {
        0
    }
}

/// The number of nodes on the pending stack, counting each entry's whole
/// subtree: the traversal's termination measure.
pub open spec fn stack_weight(shapes: Seq<Shape>) -> nat
    decreases shapes.len(),
{
    if shapes.len() == 0 {
        0
    } else {
        shape_count(shapes.last()) + stack_weight(shapes.drop_last())
    }
}

/// Pushing an entry adds its subtree's node count to the measure.
proof fn lemma_stack_weight_push(shapes: Seq<Shape>, x: Shape)
    ensures
        stack_weight(shapes.push(x)) == stack_weight(shapes) + shape_count(x),
{
    assert(shapes.push(x).last() == x);
    assert(shapes.push(x).drop_last() =~= shapes);
}

/// A rearrangement of a sequence whose entries all satisfied a property
/// still satisfies it entrywise.
proof fn lemma_multiset_keeps_prop<T>(s0: Seq<T>, s1: Seq<T>, p: spec_fn(T) -> bool)
    requires
        s1.to_multiset() == s0.to_multiset(),
        forall|k: int| 0 <= k < s0.len() ==> p(#[trigger] s0[k]),
    ensures
        forall|k: int| 0 <= k < s1.len() ==> p(#[trigger] s1[k]),
{
    assert forall|k: int| 0 <= k < s1.len() implies p(#[trigger] s1[k]) by {
        assert(s1.contains(s1[k]));
        assert(s1.to_multiset().count(s1[k]) > 0);
        assert(s0.to_multiset().count(s1[k]) > 0);
        assert(s0.contains(s1[k]));
        let j = choose|j: int| 0 <= j < s0.len() && s0[j] == s1[k];
        assert(p(s0[j]));
    }
}

/// Applies the permutation the build recorded: for each position in turn,
/// follows the recorded chain of earlier swaps to the object's current
/// place, then swaps it in. The chain is chased at most one step per object;
/// on the records the build produces it always resolves sooner.
/// The record-making closure, handed the object `t`, answered the record
/// data `i`.
pub open spec fn info_answers<T, I, FI: Fn(&T) -> I>(info_of: FI, t: T, i: I) -> bool {
    exists|tp: &T| #[trigger] call_ensures(info_of, (tp,), i) && *tp == t
}

/// Records whose index fields were pairwise distinct stay pairwise distinct
/// under rearrangement.
proof fn lemma_perm_keeps_distinct_idx<I>(s0: Seq<Tagged<I>>, s1: Seq<Tagged<I>>)
    requires
        s1.to_multiset() == s0.to_multiset(),
        forall|k1: int, k2: int|
            0 <= k1 < s0.len() && 0 <= k2 < s0.len() && k1 != k2 ==> (#[trigger] s0[k1]).idx != (
            #[trigger] s0[k2]).idx,
    ensures
        forall|k1: int, k2: int|
            0 <= k1 < s1.len() && 0 <= k2 < s1.len() && k1 != k2 ==> (#[trigger] s1[k1]).idx != (
            #[trigger] s1[k2]).idx,
{
    assert(s0.no_duplicates());
    s0.lemma_multiset_has_no_duplicates();
    s1.lemma_multiset_has_no_duplicates_conv();
    assert forall|k1: int, k2: int|
        0 <= k1 < s1.len() && 0 <= k2 < s1.len() && k1 != k2 implies (#[trigger] s1[k1]).idx != (
    #[trigger] s1[k2]).idx by {
        if s1[k1].idx == s1[k2].idx {
            assert(s1[k1] != s1[k2]);
            assert(s1.contains(s1[k1]));
            assert(s1.contains(s1[k2]));
            assert(s0.to_multiset().count(s1[k1]) > 0);
            assert(s0.to_multiset().count(s1[k2]) > 0);
            assert(s0.contains(s1[k1]));
            assert(s0.contains(s1[k2]));
            let j1 = choose|j: int| 0 <= j < s0.len() && s0[j] == s1[k1];
            let j2 = choose|j: int| 0 <= j < s0.len() && s0[j] == s1[k2];
            assert(j1 != j2);
            assert(s0[j1].idx != s0[j2].idx);
        }
    }
}

/// Applies the permutation the build recorded: the object whose record came
/// to rest at position `k` is moved to position `k`, by one swap per
/// position, each object's current place followed through an inverse index.
#[verifier::loop_isolation(false)]
fn reorder<T, I: Copy>(objects: &mut Vec<T>, infos: &Vec<Tagged<I>>)
    requires
        old(objects)@.len() == infos@.len(),
        forall|k: int| 0 <= k < infos@.len() ==> (#[trigger] infos@[k]).idx < infos@.len(),
        forall|k1: int, k2: int|
            0 <= k1 < infos@.len() && 0 <= k2 < infos@.len() && k1 != k2 ==> (
            #[trigger] infos@[k1]).idx != (#[trigger] infos@[k2]).idx,
    ensures
        final(objects)@.len() == old(objects)@.len(),
        final(objects)@.to_multiset() == old(objects)@.to_multiset(),
        forall|k: int|
            0 <= k < infos@.len() ==> final(objects)@[k] == old(objects)@[(
            #[trigger] infos@[k]).idx as int],
{
    let n = objects.len();
    // cur[p] is the original position of the object now at p; pos is its
    // inverse.
    let mut cur: Vec<usize> = Vec::new();
    let mut pos: Vec<usize> = Vec::new();
    for j in 0..n
        invariant
            cur@.len() == j,
            pos@.len() == j,
            forall|k: int| 0 <= k < j ==> (#[trigger] cur@[k]) == k,
            forall|k: int| 0 <= k < j ==> (#[trigger] pos@[k]) == k,
    {
        cur.push(j);
        pos.push(j);
    }
    for i in 0..n
        invariant
            objects@.len() == n,
            cur@.len() == n,
            pos@.len() == n,
            n == infos@.len(),
            n == old(objects)@.len(),
            forall|k: int| 0 <= k < n ==> (#[trigger] cur@[k]) < n,
            forall|k: int| 0 <= k < n ==> (#[trigger] pos@[k]) < n,
            forall|k: int| 0 <= k < n ==> pos@[(#[trigger] cur@[k]) as int] == k,
            forall|k: int| 0 <= k < n ==> cur@[(#[trigger] pos@[k]) as int] == k,
            forall|k: int|
                0 <= k < n ==> objects@[k] == old(objects)@[(#[trigger] cur@[k]) as int],
            forall|k: int| 0 <= k < i ==> (#[trigger] cur@[k]) == infos@[k].idx,
            objects@.to_multiset() == old(objects)@.to_multiset(),
    {
        let target = infos[i].idx;
        let j = pos[target];
        proof {
            assert(cur@[j as int] == target);
            if j < i {
                assert(cur@[j as int] == infos@[j as int].idx);
                assert(infos@[j as int].idx == infos@[i as int].idx);
                assert(false);
            }
        }
        let ghost before = objects@;
        vec_swap(objects, i, j);
        proof {
            lemma_swap_multiset(before, i as int, j as int);
        }
        let a = cur[i];
        let b = cur[j];
        cur[i] = b;
        cur[j] = a;
        pos[b] = i;
        pos[a] = j;
        proof {
            assert forall|k: int| 0 <= k < n implies pos@[(#[trigger] cur@[k]) as int] == k by {
                if k != i && k != j {
                    assert(cur@[k] != a && cur@[k] != b);
                }
            }
            assert forall|k: int| 0 <= k < n implies cur@[(#[trigger] pos@[k]) as int] == k by {
                if k != a as int && k != b as int {
                    assert(pos@[k] != i && pos@[k] != j);
                }
            }
        }
    }
    proof {
        assert forall|k: int| 0 <= k < infos@.len() implies objects@[k] == old(objects)@[(
        #[trigger] infos@[k]).idx as int] by {
            assert(cur@[k] == infos@[k].idx);
            assert(objects@[k] == old(objects)@[cur@[k] as int]);
        }
    }
}

/// The hierarchy: the objects, reordered so that every leaf's members are
/// contiguous; the branch array; the root; the merged bounding box; and the
/// height of the tree.
pub struct Bvh<T, A> {
    objects: Vec<T>,
    branches: Vec<Branch<A>>,
    root: Node,
    bounding_box: A,
    max_depth: usize,
    shape: Ghost<Shape>,
}

impl<T, A: Copy> Bvh<T, A> {
    pub closed spec fn spec_objects(&self) -> Seq<T> {
        self.objects@
    }

    pub closed spec fn spec_shape(&self) -> Shape {
        self.shape@
    }

    pub closed spec fn spec_root(&self) -> Node {
        self.root
    }

    pub closed spec fn spec_branches(&self) -> Seq<Branch<A>> {
        self.branches@
    }

    pub closed spec fn spec_bounding_box(&self) -> A {
        self.bounding_box
    }

    /// The flat representation encodes the ghost tree, and the tree's
    /// leaves tile the object array exactly.
    pub closed spec fn wf(&self) -> bool {
        &&& node_matches(self.branches@, self.root, self.shape@)
        &&& covers(shape_leaves(self.shape@), 0, self.objects@.len() as int)
        &&& self.max_depth == shape_height(self.shape@)
    }

    pub fn objects(&self) -> (r: &Vec<T>)
        ensures
            r@ == self.spec_objects(),
    {
        &self.objects
    }

    pub fn bounding_box(&self) -> (r: A)
        ensures
            r == self.spec_bounding_box(),
    {
        self.bounding_box
    }

    /// The height of the tree: of a well-formed hierarchy, exactly the ghost
    /// tree's height, so it bounds how deep any traversal descends.
    pub fn max_depth(&self) -> (d: usize)
        ensures
            self.wf() ==> d == shape_height(self.spec_shape()),
    {
        self.max_depth
    }

    /// Builds the hierarchy over the given objects. `info_of` prepares each
    /// object's split-time record (its centroid and bounds); `sah` picks a
    /// cut for a range, rearranging it only; `box_of` and `merge` read and
    /// combine bounding boxes; `empty` pads unused child slots. The objects
    /// come out reordered — the same objects, none lost, none duplicated —
    /// and the finished tree's leaves tile them exactly.
    #[verifier::loop_isolation(false)]
    pub fn new<I: Copy, FI, FS, FB, FM>(
        objects: Vec<T>,
        info_of: &FI,
        sah: &FS,
        box_of: &FB,
        merge: &FM,
        empty: A,
    ) -> (res: (Bvh<T, A>, Ghost<Seq<Tagged<I>>>)) where
        FI: Fn(&T) -> I,
        FS: Fn(Vec<Tagged<I>>, usize, usize) -> (Vec<Tagged<I>>, usize),
        FB: Fn(I) -> A,
        FM: Fn(A, A) -> A,

        requires
            objects@.len() <= 0x7FFF_FFFE,
            forall|t: &T| #[trigger] call_requires(*info_of, (t,)),
            splitter_requires(*sah),
            splitter_ensures(*sah),
            forall|i: I| #[trigger] call_requires(*box_of, (i,)),
            forall|x: A, y: A| #[trigger] call_requires(*merge, (x, y)),
        ensures
            res.0.wf(),
            res.0.spec_objects().len() == objects@.len(),
            res.0.spec_objects().to_multiset() == objects@.to_multiset(),
            node_box_ok(
                *box_of,
                *merge,
                res.1@,
                empty,
                res.0.spec_branches(),
                res.0.spec_shape(),
                res.0.spec_bounding_box(),
            ),
            res.1@.len() == objects@.len(),
            forall|k: int|
                0 <= k < res.1@.len() ==> (#[trigger] res.1@[k]).idx < objects@.len()
                    && res.0.spec_objects()[k] == objects@[res.1@[k].idx as int] && info_answers(
                    *info_of,
                    objects@[res.1@[k].idx as int],
                    res.1@[k].info,
                ),
            forall|k1: int, k2: int|
                0 <= k1 < res.1@.len() && 0 <= k2 < res.1@.len() && k1 != k2 ==> (
                #[trigger] res.1@[k1]).idx != (#[trigger] res.1@[k2]).idx,
    {
        let ghost objects0 = objects@;
        let n = objects.len();
        let mut data: Vec<Tagged<I>> = Vec::new();
        for idx in 0..n
            invariant
                n == objects@.len(),
                data@.len() == idx,
                forall|k: int| 0 <= k < idx ==> (#[trigger] data@[k]).idx == k,
                forall|k: int|
                    0 <= k < idx ==> info_answers(
                        *info_of,
                        objects@[(#[trigger] data@[k]).idx as int],
                        data@[k].info,
                    ),
        {
            let info = info_of(&objects[idx]);
            data.push(Tagged { info, idx });
        }
        let ghost data0 = data@;
        let mut branches: Vec<Branch<A>> = Vec::new();
        let r = build(data, 0, n, &mut branches, sah, box_of, merge, empty);
        let mut data = r.0;
        let root = r.1;
        let aabb = r.2;
        let max_depth = r.3;
        let shape = r.4;
        let mut objects = objects;
        proof {
            assert(data0.subrange(0, n as int) =~= data0);
            assert(data@.subrange(0, n as int) =~= data@);
            lemma_multiset_keeps_prop(
                data0,
                data@,
                |t: Tagged<I>| t.idx < n && info_answers(
                    *info_of,
                    objects0[t.idx as int],
                    t.info,
                ),
            );
            lemma_perm_keeps_distinct_idx(data0, data@);
        }
        reorder(&mut objects, &data);
        (Bvh { objects, branches, root, bounding_box: aabb, max_depth, shape }, Ghost(data@))
    }
}

/// The states a leaf scan ran through: `states` starts at `s0`, ends at
/// `cur`, and each step is one call of `scan` on an object index below `n`.
pub open spec fn trace_ok<S, F: Fn(S, usize) -> S>(
    scan: F,
    states: Seq<S>,
    idxs: Seq<usize>,
    s0: S,
    cur: S,
    n: int,
) -> bool {
    &&& states.len() == idxs.len() + 1
    &&& states[0] == s0
    &&& states.last() == cur
    &&& forall|k: int|
        0 <= k < idxs.len() ==> (#[trigger] idxs[k]) < n && call_ensures(
            scan,
            (states[k], idxs[k]),
            states[k + 1],
        )
}

/// `s1` arises from `s0` by scanning object indices below `n`, one call of
/// `scan` at a time: all a traversal does to the caller's state.
pub open spec fn scan_reachable<S, F: Fn(S, usize) -> S>(scan: F, s0: S, s1: S, n: int) -> bool {
    exists|states: Seq<S>, idxs: Seq<usize>| #[trigger] trace_ok(scan, states, idxs, s0, s1, n)
}

/// Always true: the quantifier trigger naming the intermediate states a
/// fold threads from step to step.
pub open spec fn chain_state<S>(s: S) -> bool {
    true
}

/// `s1` arises from `s0` by scanning `[lo, hi)` in ascending order, one call
/// of `scan` per index: a leaf scanned in full.
pub open spec fn scan_fold<S, FS2: Fn(S, usize) -> S>(
    scan: FS2,
    lo: int,
    hi: int,
    s0: S,
    s1: S,
) -> bool
    decreases hi - lo,
{
    if lo >= hi {
        s1 == s0
    } else {
        exists|mid: S|
            #[trigger] call_ensures(scan, (s0, lo as usize), mid) && scan_fold(
                scan,
                lo + 1,
                hi,
                mid,
                s1,
            )
    }
}

/// The box test, asked about the branch while the caller's state was `s`,
/// answered `mask`.
pub open spec fn test_answers<S, A, FT: Fn(&S, &Branch<A>) -> u8>(
    test: FT,
    s: S,
    b: Branch<A>,
    mask: u8,
) -> bool {
    exists|sp: &S, bp: &Branch<A>|
        #[trigger] call_ensures(test, (sp, bp), mask) && *sp == s && *bp == b
}

/// Bit `k` of the child mask.
pub open spec fn bit_set(mask: u8, k: int) -> bool {
    mask & (1u8 << (k as u8)) != 0
}

/// The faithful account of one traversal step. At a leaf, the whole range is
/// scanned in order. At a branch, the box test answered some `mask` for the
/// state as it then stood, and exactly the children whose bits are set are
/// traversed, in descending slot order — the order a stack pushed in
/// ascending slot order pops them — with the state threaded through; the
/// children whose bits are clear are pruned and touch nothing.
pub open spec fn traverses<S, A, FT: Fn(&S, &Branch<A>) -> u8, FS2: Fn(S, usize) -> S>(
    test: FT,
    scan: FS2,
    branches: Seq<Branch<A>>,
    node: Node,
    shape: Shape,
    s0: S,
    s1: S,
) -> bool
    decreases shape, 8int,
{
    match shape {
        Shape::Leaf { offset, length } => scan_fold(scan, offset, offset + length, s0, s1),
        Shape::Branch { idx, subs } => {
            &&& 0 <= idx < branches.len()
            &&& exists|mask: u8|
                #[trigger] test_answers(test, s0, branches[idx], mask) && children_fold(
                    test,
                    scan,
                    branches,
                    branches[idx].children@,
                    subs,
                    mask,
                    7,
                    s0,
                    s1,
                )
        },
    }
}

/// Traverses the children at slots `k` down to `0` whose mask bits are set,
/// threading the state; clear bits are skipped.
pub open spec fn children_fold<S, A, FT: Fn(&S, &Branch<A>) -> u8, FS2: Fn(S, usize) -> S>(
    test: FT,
    scan: FS2,
    branches: Seq<Branch<A>>,
    children: Seq<Node>,
    subs: Seq<Shape>,
    mask: u8,
    k: int,
    s0: S,
    s1: S,
) -> bool
    decreases subs, k + 1,
{
    if k < 0 {
        s1 == s0
    } else if 0 <= k < subs.len() && k < children.len() {
        if bit_set(mask, k) {
            exists|mid: S|
                #[trigger] chain_state(mid) && traverses(
                    test,
                    scan,
                    branches,
                    children[k],
                    subs[k],
                    s0,
                    mid,
                ) && children_fold(test, scan, branches, children, subs, mask, k - 1, mid, s1)
        } else {
            children_fold(test, scan, branches, children, subs, mask, k - 1, s0, s1)
        }
    } else {
        false
    }
}

/// The pending stack, processed top first, takes the state from `s0` to
/// `s1`: each entry is one full `traverses` step.
pub open spec fn stack_fold<S, A, FT: Fn(&S, &Branch<A>) -> u8, FS2: Fn(S, usize) -> S>(
    test: FT,
    scan: FS2,
    branches: Seq<Branch<A>>,
    stack: Seq<Node>,
    shapes: Seq<Shape>,
    s0: S,
    s1: S,
) -> bool
    decreases shapes.len(),
{
    if shapes.len() == 0 || stack.len() != shapes.len() {
        stack.len() == shapes.len() && s1 == s0
    } else {
        exists|mid: S|
            #[trigger] chain_state(mid) && traverses(
                test,
                scan,
                branches,
                stack.last(),
                shapes.last(),
                s0,
                mid,
            ) && stack_fold(
                test,
                scan,
                branches,
                stack.drop_last(),
                shapes.drop_last(),
                mid,
                s1,
            )
    }
}

/// One set bit extends a descending children fold by that child's traversal.
proof fn lemma_children_fold_set<S, A, FT: Fn(&S, &Branch<A>) -> u8, FS2: Fn(S, usize) -> S>(
    test: FT,
    scan: FS2,
    branches: Seq<Branch<A>>,
    children: Seq<Node>,
    subs: Seq<Shape>,
    mask: u8,
    k: int,
    sx: S,
    mid1: S,
    s1: S,
)
    requires
        0 <= k < subs.len(),
        k < children.len(),
        bit_set(mask, k),
        traverses(test, scan, branches, children[k], subs[k], sx, mid1),
        children_fold(test, scan, branches, children, subs, mask, k - 1, mid1, s1),
    ensures
        children_fold(test, scan, branches, children, subs, mask, k, sx, s1),
{
    assert(chain_state(mid1));
}

/// One clear bit extends a descending children fold without a visit.
proof fn lemma_children_fold_clear<S, A, FT: Fn(&S, &Branch<A>) -> u8, FS2: Fn(S, usize) -> S>(
    test: FT,
    scan: FS2,
    branches: Seq<Branch<A>>,
    children: Seq<Node>,
    subs: Seq<Shape>,
    mask: u8,
    k: int,
    sx: S,
    s1: S,
)
    requires
        0 <= k < subs.len(),
        k < children.len(),
        !bit_set(mask, k),
        children_fold(test, scan, branches, children, subs, mask, k - 1, sx, s1),
    ensures
        children_fold(test, scan, branches, children, subs, mask, k, sx, s1),
{
}

/// A scan of `[lo, hi)` followed by one more call on `hi` is a scan of
/// `[lo, hi + 1)`.
proof fn lemma_scan_fold_snoc<S, FS2: Fn(S, usize) -> S>(
    scan: FS2,
    lo: int,
    hi: int,
    a: S,
    b: S,
    c: S,
)
    requires
        0 <= lo <= hi,
        scan_fold(scan, lo, hi, a, b),
        call_ensures(scan, (b, hi as usize), c),
    ensures
        scan_fold(scan, lo, hi + 1, a, c),
    decreases hi - lo,
{
    if lo == hi {
        assert(b == a);
        assert(scan_fold(scan, hi + 1, hi + 1, c, c));
    } else {
        let mid = choose|mid: S|
            #[trigger] call_ensures(scan, (a, lo as usize), mid) && scan_fold(
                scan,
                lo + 1,
                hi,
                mid,
                b,
            );
        lemma_scan_fold_snoc(scan, lo + 1, hi, mid, b, c);
    }
}

impl<T, A: Copy> Bvh<T, A> {
    /// Iterative traversal with an explicit pending-node stack. Popping a
    /// leaf scans its contiguous object range in order through `scan`, which
    /// carries the caller's state (the ray, the shrinking parametric range,
    /// the nearest hit so far). Popping a branch asks `test` for a bitmask
    /// of the children worth visiting — judged against the caller's current
    /// state — and pushes them in increasing slot order. The result is the
    /// state after the last scan; only in-bounds indices are ever scanned.
    #[verifier::loop_isolation(false)]
    #[verifier::rlimit(100)]
    pub fn hit<S, FT, FS2>(&self, s0: S, test: &FT, scan: &FS2) -> (res: S) where
        FT: Fn(&S, &Branch<A>) -> u8,
        FS2: Fn(S, usize) -> S,

        requires
            self.wf(),
            forall|s: &S, b: &Branch<A>| #[trigger] call_requires(*test, (s, b)),
            forall|s: S, i: usize|
                i < self.spec_objects().len() ==> #[trigger] call_requires(*scan, (s, i)),
        ensures
            scan_reachable(*scan, s0, res, self.spec_objects().len() as int),
            traverses(
                *test,
                *scan,
                self.spec_branches(),
                self.spec_root(),
                self.spec_shape(),
                s0,
                res,
            ),
    {
        let num_objects = self.objects.len();
        let ghost n = num_objects as int;
        let ghost gbr = self.branches@;
        let mut stack: Vec<Node> = Vec::new();
        stack.push(self.root);
        let ghost mut shapes: Seq<Shape> = seq![self.shape@];
        let ghost hroot = shape_height(self.shape@) as int;
        // Each pending entry carries a height cap; the caps fall weakly from
        // bottom to top, and any stretch of the stack holds at most eight
        // entries plus seven per cap level it spans. That keeps the stack
        // within the seven-per-level budget the tree's height allows.
        let ghost mut caps: Seq<int> = seq![hroot];
        proof {
            lemma_bounded_from_covers(self.shape@, 0, n, n);
            assert forall|t: S| #[trigger] stack_fold(
                *test,
                *scan,
                gbr,
                stack@,
                shapes,
                s0,
                t,
            ) implies traverses(*test, *scan, gbr, self.root, self.shape@, s0, t) by {
                assert(stack@.last() == self.root);
                assert(shapes.last() == self.shape@);
                assert(stack@.drop_last() =~= Seq::<Node>::empty());
                assert(shapes.drop_last() =~= Seq::<Shape>::empty());
                let mid = choose|mid: S|
                    #[trigger] chain_state(mid) && traverses(
                        *test,
                        *scan,
                        gbr,
                        stack@.last(),
                        shapes.last(),
                        s0,
                        mid,
                    ) && stack_fold(
                        *test,
                        *scan,
                        gbr,
                        stack@.drop_last(),
                        shapes.drop_last(),
                        mid,
                        t,
                    );
                assert(t == mid);
            }
        }
        let mut s = s0;
        let ghost mut states: Seq<S> = seq![s0];
        let ghost mut idxs: Seq<usize> = seq![];
        while stack.len() > 0
            invariant
                shapes.len() == stack@.len(),
                forall|k: int|
                    0 <= k < stack@.len() ==> node_matches(
                        self.branches@,
                        stack@[k],
                        #[trigger] shapes[k],
                    ),
                forall|k: int| 0 <= k < shapes.len() ==> shape_bounded(#[trigger] shapes[k], n),
                trace_ok(*scan, states, idxs, s0, s, n),
                caps.len() == shapes.len(),
                forall|i: int| 0 <= i < shapes.len() ==> shape_height(#[trigger] shapes[i]) <= caps[i],
                forall|i: int| 0 <= i < caps.len() ==> 0 <= #[trigger] caps[i] <= hroot,
                shapes.len() >= 2 ==> (forall|i: int|
                    0 <= i < caps.len() ==> #[trigger] caps[i] <= hroot - 1),
                forall|i: int, j: int|
                    #![trigger caps[i], caps[j]]
                    0 <= i <= j < caps.len() ==> caps[i] >= caps[j] && j - i + 1 <= 8 + 7 * (
                    caps[i] - caps[j]),
                stack@.len() <= 7 * hroot + 1,
                forall|t: S|
                    #[trigger] stack_fold(*test, *scan, gbr, stack@, shapes, s, t) ==> traverses(
                        *test,
                        *scan,
                        gbr,
                        self.root,
                        self.shape@,
                        s0,
                        t,
                    ),
            decreases stack_weight(shapes),
        {
            let ghost stack_begin = stack@;
            let ghost shapes_begin = shapes;
            let ghost caps_begin = caps;
            let ghost s_begin = s;
            let node = stack.pop().unwrap();
            let ghost top_shape = shapes.last();
            proof {
                shapes = shapes.drop_last();
                caps = caps.drop_last();
                assert forall|k: int| 0 <= k < stack@.len() implies node_matches(
                    self.branches@,
                    stack@[k],
                    #[trigger] shapes[k],
                ) by {
                    assert(shapes[k] == shapes_begin[k]);
                }
            }
            let ghost rest_stack = stack@;
            let ghost rest_shapes = shapes;
            let ghost rest_caps = caps;
            match node {
                Node::Leaf { offset, length } => {
                    proof {
                        assert(node_matches(self.branches@, node, top_shape));
                        assert(shape_bounded(top_shape, n));
                    }
                    let start = offset as usize;
                    let count = length as usize;
                    proof {
                        if count > 0 {
                            assert(start + count <= n);
                        }
                    }
                    let end = start + count;
                    let ghost s_pop = s;
                    for i in start..end
                        invariant
                            end as int <= n || count == 0,
                            trace_ok(*scan, states, idxs, s0, s, n),
                            scan_fold(*scan, start as int, i as int, s_pop, s),
                    {
                        let s2 = scan(s, i);
                        proof {
                            states = states.push(s2);
                            idxs = idxs.push(i);
                            assert(states.last() == s2);
                            assert forall|k: int| 0 <= k < idxs.len() implies (#[trigger] idxs[k])
                                < n && call_ensures(
                                *scan,
                                (states[k], idxs[k]),
                                states[k + 1],
                            ) by {
                                if k < idxs.len() - 1 {
                                    assert(states[k] == states.drop_last()[k]);
                                }
                            }
                            lemma_scan_fold_snoc(*scan, start as int, i as int, s_pop, s, s2);
                        }
                        s = s2;
                    }
                    proof {
                        lemma_stack_weight_push(shapes, top_shape);
                        assert(shapes.push(top_shape) =~= shapes_begin);
                        assert forall|i: int, j: int|
                            #![trigger caps[i], caps[j]]
                            0 <= i <= j < caps.len() implies caps[i] >= caps[j] && j - i + 1 <= 8
                            + 7 * (caps[i] - caps[j]) by {
                            assert(caps[i] == caps_begin[i]);
                            assert(caps[j] == caps_begin[j]);
                        }
                        if shapes.len() >= 2 {
                            assert forall|i: int| 0 <= i < caps.len() implies #[trigger] caps[i]
                                <= hroot - 1 by {
                                assert(caps[i] == caps_begin[i]);
                            }
                        }
                        assert(stack@.len() <= 7 * hroot + 1) by {
                            if caps.len() >= 2 {
                                assert(caps[0] >= caps[caps.len() - 1] && caps.len() <= 8 + 7 * (
                                caps[0] - caps[caps.len() - 1]));
                                assert(caps[caps.len() - 1] >= 0);
                                assert(caps[0] <= hroot - 1);
                            }
                        }
                        assert(traverses(*test, *scan, gbr, node, top_shape, s_pop, s));
                        assert forall|t: S| #[trigger] stack_fold(
                            *test,
                            *scan,
                            gbr,
                            stack@,
                            shapes,
                            s,
                            t,
                        ) implies traverses(
                            *test,
                            *scan,
                            gbr,
                            self.root,
                            self.shape@,
                            s0,
                            t,
                        ) by {
                            assert(stack_begin.last() == node);
                            assert(stack_begin.drop_last() =~= stack@);
                            assert(shapes_begin.drop_last() =~= shapes);
                            assert(shapes_begin.last() == top_shape);
                            assert(chain_state(s));
                            assert(stack_fold(
                                *test,
                                *scan,
                                gbr,
                                stack_begin,
                                shapes_begin,
                                s_pop,
                                t,
                            ));
                        }
                    }
                },
                Node::Branch { idx } => {
                    proof {
                        assert(node_matches(self.branches@, node, top_shape));
                    }
                    let ghost subs = (match top_shape {
                        Shape::Branch { subs, .. } => subs,
                        _ => Seq::empty(),
                    });
                    let ghost hpop = shape_height(top_shape) as int;
                    proof {
                        assert(hpop == 1 + shapes_height(subs, 0));
                        assert(caps_begin[caps_begin.len() - 1] >= hpop);
                    }
                    let branch = &self.branches[idx as usize];
                    let mask = test(&s, branch);
                    proof {
                        assert(test_answers(*test, s, gbr[idx as int], mask));
                    }
                    let ghost w0 = stack_weight(shapes);
                    for b in 0..8u8
                        invariant
                            shapes.len() == stack@.len(),
                            forall|k: int|
                                0 <= k < stack@.len() ==> node_matches(
                                    self.branches@,
                                    stack@[k],
                                    #[trigger] shapes[k],
                                ),
                            forall|k: int|
                                0 <= k < shapes.len() ==> shape_bounded(
                                    #[trigger] shapes[k],
                                    n,
                                ),
                            stack_weight(shapes) + shapes_count(subs, b as int) <= w0
                                + shapes_count(subs, 0),
                            caps.len() == shapes.len(),
                            rest_caps.len() <= caps.len(),
                            caps.len() - rest_caps.len() <= b as int,
                            forall|i: int|
                                0 <= i < rest_caps.len() ==> #[trigger] caps[i] == rest_caps[i],
                            forall|i: int|
                                rest_caps.len() <= i < caps.len() ==> #[trigger] caps[i] == hpop
                                    - 1,
                            forall|i: int|
                                0 <= i < shapes.len() ==> shape_height(#[trigger] shapes[i])
                                    <= caps[i],
                            forall|sx: S, t: S|
                                #[trigger] stack_fold(*test, *scan, gbr, stack@, shapes, sx, t)
                                    ==> exists|mid: S|
                                    children_fold(
                                        *test,
                                        *scan,
                                        gbr,
                                        gbr[idx as int].children@,
                                        subs,
                                        mask,
                                        b as int - 1,
                                        sx,
                                        mid,
                                    ) && stack_fold(
                                        *test,
                                        *scan,
                                        gbr,
                                        rest_stack,
                                        rest_shapes,
                                        mid,
                                        t,
                                    ),
                    {
                        if mask & (1u8 << b) != 0 {
                            let ghost stack_pre = stack@;
                            let ghost shapes_pre = shapes;
                            stack.push(branch.children[b as usize]);
                            proof {
                                lemma_stack_weight_push(shapes, subs[b as int]);
                                shapes = shapes.push(subs[b as int]);
                                lemma_shapes_height_ge(subs, 0, b as int);
                                caps = caps.push(hpop - 1);
                                assert(bit_set(mask, b as int));
                                assert forall|sx: S, t: S| #[trigger] stack_fold(
                                    *test,
                                    *scan,
                                    gbr,
                                    stack@,
                                    shapes,
                                    sx,
                                    t,
                                ) implies exists|mid: S|
                                    children_fold(
                                        *test,
                                        *scan,
                                        gbr,
                                        gbr[idx as int].children@,
                                        subs,
                                        mask,
                                        b as int,
                                        sx,
                                        mid,
                                    ) && stack_fold(
                                        *test,
                                        *scan,
                                        gbr,
                                        rest_stack,
                                        rest_shapes,
                                        mid,
                                        t,
                                    ) by {
                                    assert(stack@.last() == gbr[idx as int].children@[b as int]);
                                    assert(shapes.last() == subs[b as int]);
                                    assert(stack@.drop_last() =~= stack_pre);
                                    assert(shapes.drop_last() =~= shapes_pre);
                                    let mid1 = choose|mid1: S|
                                        #[trigger] chain_state(mid1) && traverses(
                                            *test,
                                            *scan,
                                            gbr,
                                            stack@.last(),
                                            shapes.last(),
                                            sx,
                                            mid1,
                                        ) && stack_fold(
                                            *test,
                                            *scan,
                                            gbr,
                                            stack@.drop_last(),
                                            shapes.drop_last(),
                                            mid1,
                                            t,
                                        );
                                    assert(subs.len() == 8);
                                    assert(gbr[idx as int].children@.len() == 8);
                                    assert(traverses(
                                        *test,
                                        *scan,
                                        gbr,
                                        gbr[idx as int].children@[b as int],
                                        subs[b as int],
                                        sx,
                                        mid1,
                                    ));
                                    assert(stack_fold(
                                        *test,
                                        *scan,
                                        gbr,
                                        stack_pre,
                                        shapes_pre,
                                        mid1,
                                        t,
                                    ));
                                    let mid = choose|mid: S|
                                        #[trigger] children_fold(
                                            *test,
                                            *scan,
                                            gbr,
                                            gbr[idx as int].children@,
                                            subs,
                                            mask,
                                            b as int - 1,
                                            mid1,
                                            mid,
                                        ) && stack_fold(
                                            *test,
                                            *scan,
                                            gbr,
                                            rest_stack,
                                            rest_shapes,
                                            mid,
                                            t,
                                        );
                                    lemma_children_fold_set(
                                        *test,
                                        *scan,
                                        gbr,
                                        gbr[idx as int].children@,
                                        subs,
                                        mask,
                                        b as int,
                                        sx,
                                        mid1,
                                        mid,
                                    );
                                }
                            }
                        } else {
                            proof {
                                assert(!bit_set(mask, b as int));
                                assert forall|sx: S, t: S| #[trigger] stack_fold(
                                    *test,
                                    *scan,
                                    gbr,
                                    stack@,
                                    shapes,
                                    sx,
                                    t,
                                ) implies exists|mid: S|
                                    children_fold(
                                        *test,
                                        *scan,
                                        gbr,
                                        gbr[idx as int].children@,
                                        subs,
                                        mask,
                                        b as int,
                                        sx,
                                        mid,
                                    ) && stack_fold(
                                        *test,
                                        *scan,
                                        gbr,
                                        rest_stack,
                                        rest_shapes,
                                        mid,
                                        t,
                                    ) by {
                                    let mid = choose|mid: S|
                                        #[trigger] children_fold(
                                            *test,
                                            *scan,
                                            gbr,
                                            gbr[idx as int].children@,
                                            subs,
                                            mask,
                                            b as int - 1,
                                            sx,
                                            mid,
                                        ) && stack_fold(
                                            *test,
                                            *scan,
                                            gbr,
                                            rest_stack,
                                            rest_shapes,
                                            mid,
                                            t,
                                        );
                                    lemma_children_fold_clear(
                                        *test,
                                        *scan,
                                        gbr,
                                        gbr[idx as int].children@,
                                        subs,
                                        mask,
                                        b as int,
                                        sx,
                                        mid,
                                    );
                                }
                            }
                        }
                    }
                    proof {
                        lemma_stack_weight_push(shapes_begin.drop_last(), top_shape);
                        assert(shapes_begin.drop_last().push(top_shape) =~= shapes_begin);
                        assert(shapes_count(subs, 8) == 0);
                        assert(shape_count(top_shape) == 1 + shapes_count(subs, 0));
                        let rl = rest_caps.len() as int;
                        assert(caps_begin.len() == rl + 1);
                        assert(caps_begin[rl] >= hpop);
                        assert forall|i: int, j: int|
                            #![trigger caps[i], caps[j]]
                            0 <= i <= j < caps.len() implies caps[i] >= caps[j] && j - i + 1 <= 8
                            + 7 * (caps[i] - caps[j]) by {
                            if j < rl {
                                assert(caps[i] == caps_begin[i]);
                                assert(caps[j] == caps_begin[j]);
                            } else if i >= rl {
                                assert(caps[i] == hpop - 1);
                                assert(caps[j] == hpop - 1);
                                assert(j - i <= 7);
                            } else {
                                assert(caps[i] == caps_begin[i]);
                                assert(caps[j] == hpop - 1);
                                assert(caps_begin[i] >= caps_begin[rl] && rl - i + 1 <= 8 + 7 * (
                                caps_begin[i] - caps_begin[rl]));
                                assert(j <= rl + 7);
                            }
                        }
                        if shapes.len() >= 2 {
                            assert forall|i: int| 0 <= i < caps.len() implies #[trigger] caps[i]
                                <= hroot - 1 by {
                                if i < rl {
                                    assert(caps[i] == caps_begin[i]);
                                } else {
                                    assert(caps[i] == hpop - 1);
                                    assert(hpop <= caps_begin[rl]);
                                }
                            }
                        }
                        assert(stack@.len() <= 7 * hroot + 1) by {
                            if caps.len() >= 2 {
                                assert(caps[0] >= caps[caps.len() - 1] && caps.len() <= 8 + 7 * (
                                caps[0] - caps[caps.len() - 1]));
                                assert(caps[caps.len() - 1] >= 0);
                                assert(caps[0] <= hroot - 1);
                            }
                        }
                        assert forall|t: S| #[trigger] stack_fold(
                            *test,
                            *scan,
                            gbr,
                            stack@,
                            shapes,
                            s,
                            t,
                        ) implies traverses(
                            *test,
                            *scan,
                            gbr,
                            self.root,
                            self.shape@,
                            s0,
                            t,
                        ) by {
                            let mid = choose|mid: S|
                                #[trigger] children_fold(
                                    *test,
                                    *scan,
                                    gbr,
                                    gbr[idx as int].children@,
                                    subs,
                                    mask,
                                    7int,
                                    s,
                                    mid,
                                ) && stack_fold(
                                    *test,
                                    *scan,
                                    gbr,
                                    rest_stack,
                                    rest_shapes,
                                    mid,
                                    t,
                                );
                            assert(traverses(*test, *scan, gbr, node, top_shape, s, mid));
                            assert(stack_begin.last() == node);
                            assert(stack_begin.drop_last() =~= rest_stack);
                            assert(shapes_begin.drop_last() =~= rest_shapes);
                            assert(shapes_begin.last() == top_shape);
                            assert(chain_state(mid));
                            assert(stack_fold(
                                *test,
                                *scan,
                                gbr,
                                stack_begin,
                                shapes_begin,
                                s_begin,
                                t,
                            ));
                        }
                    }
                },
            }
        }
        proof {
            assert(trace_ok(*scan, states, idxs, s0, s, n));
            assert(stack_fold(*test, *scan, gbr, stack@, shapes, s, s));
        }
        s
    }
}

/// An object index lies inside the given leaf range.
pub open spec fn in_leaf(i: int, leaf: (int, int)) -> bool {
    leaf.0 <= i < leaf.0 + leaf.1
}

/// Every object index below `hi` (and at least `lo`) lies in exactly one of
/// the ranges of a back-to-back covering: the tree loses no object and
/// duplicates none.
pub proof fn lemma_covers_exactly_one(ls: Seq<(int, int)>, lo: int, hi: int, i: int)
    requires
        covers(ls, lo, hi),
        lo <= i < hi,
    ensures
        exists|k: int| 0 <= k < ls.len() && in_leaf(i, #[trigger] ls[k]),
        forall|k1: int, k2: int|
            0 <= k1 < ls.len() && 0 <= k2 < ls.len() && in_leaf(i, ls[k1]) && in_leaf(
                i,
                ls[k2],
            ) ==> k1 == k2,
    decreases ls.len(),
{
    lemma_covers_bounds(ls, lo, hi);
    if ls.len() == 0 {
    } else {
        if i < lo + ls[0].1 {
            assert(in_leaf(i, ls[0]));
            lemma_covers_bounds(ls.drop_first(), lo + ls[0].1, hi);
            assert forall|k1: int, k2: int|
                0 <= k1 < ls.len() && 0 <= k2 < ls.len() && in_leaf(i, ls[k1]) && in_leaf(
                    i,
                    ls[k2],
                ) implies k1 == k2 by {
                if k1 > 0 {
                    assert(ls.drop_first()[k1 - 1] == ls[k1]);
                }
                if k2 > 0 {
                    assert(ls.drop_first()[k2 - 1] == ls[k2]);
                }
            }
        } else {
            lemma_covers_exactly_one(ls.drop_first(), lo + ls[0].1, hi, i);
            let k0 = choose|k: int|
                0 <= k < ls.drop_first().len() && in_leaf(i, ls.drop_first()[k]);
            assert(ls.drop_first()[k0] == ls[k0 + 1]);
            assert(in_leaf(i, ls[k0 + 1]));
            assert forall|k1: int, k2: int|
                0 <= k1 < ls.len() && 0 <= k2 < ls.len() && in_leaf(i, ls[k1]) && in_leaf(
                    i,
                    ls[k2],
                ) implies k1 == k2 by {
                if k1 > 0 && k2 > 0 {
                    assert(ls.drop_first()[k1 - 1] == ls[k1]);
                    assert(ls.drop_first()[k2 - 1] == ls[k2]);
                }
            }
        }
    }
}

/// Every object of a well-formed hierarchy stands in exactly one leaf after
/// the reordering: the leaves tile the object array, so each index is
/// claimed once and only once.
pub proof fn lemma_each_object_in_one_leaf<T, A: Copy>(bvh: &Bvh<T, A>, i: int)
    requires
        bvh.wf(),
        0 <= i < bvh.spec_objects().len(),
    ensures
        exists|k: int|
            0 <= k < shape_leaves(bvh.spec_shape()).len() && in_leaf(
                i,
                #[trigger] shape_leaves(bvh.spec_shape())[k],
            ),
        forall|k1: int, k2: int|
            {
                &&& 0 <= k1 < shape_leaves(bvh.spec_shape()).len()
                &&& 0 <= k2 < shape_leaves(bvh.spec_shape()).len()
                &&& in_leaf(i, shape_leaves(bvh.spec_shape())[k1])
                &&& in_leaf(i, shape_leaves(bvh.spec_shape())[k2])
            } ==> k1 == k2,
{
    lemma_covers_exactly_one(
        shape_leaves(bvh.spec_shape()),
        0,
        bvh.spec_objects().len() as int,
        i,
    );
}

} // verus!
