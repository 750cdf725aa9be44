//! A sliding-window interpolation track.
//!
//! A track is a bounded, sequentially built timeline of sample points keyed
//! by an ordered coordinate. It grows at its leading edge as new samples
//! arrive (`push_aligned`, `insert_not_aligned`), can be cancelled back to a
//! prior key (`cancel_forward`), and can be truncated at its trailing edge
//! (`truncate_back`). Queries (`interpolate`) find the two samples bracketing
//! a key and hand them to a caller-supplied interpolator.
//!
//! Samples come in two flavours: *aligned* samples sit exactly on a fixed
//! grid of step `aligned_step`; *not-aligned* samples sit at arbitrary keys
//! inside a grid cell and displace the pending aligned sample until the
//! caller re-aligns. Two ring buffers carry the state: `buf` holds the nodes,
//! `ranges` holds one `(begin, end)` pair of node counters per grid cell.
//! Counters number the nodes since the last reset; the first range's `begin`
//! is the counter of the oldest node still held.

pub mod buf;
pub mod interpolator;
pub mod key;
pub mod node;
pub mod sample;
pub mod search;

use vstd::prelude::*;

use crate::buf::Buffer;
use crate::buf::Truncated;
use crate::interpolator::TrackInterpolator;
use crate::node::NotAlignedPayload;
use crate::node::TrackData;
use crate::node::TrackNode;
use crate::search::KeyTable;

pub use crate::key::TrackKey;
pub use crate::key::TrackKeyDistance;

verus! {

/// A track operation failed.
#[derive(Debug, PartialEq, Eq)]
pub enum Error {
    /// A push would exceed the track's capacity and auto-growth is not
    /// permitted; free space with `truncate_back` first.
    Overflow,
    /// `interpolate` was called with a key outside `[key_start, key_end)`.
    KeyNotInRange,
    /// `insert_not_aligned` was called with a key not strictly inside
    /// `(key_start, key_end)`.
    KeyIsNotInInnerRange,
}

type Key<I> = <I as TrackInterpolator>::Key;

type KeyDistance<I> = <Key<I> as TrackKey>::Distance;

type Data<I> = <I as TrackInterpolator>::Data;

type NotAlignedData<I> = <I as TrackInterpolator>::NotAlignedData;

type Node<I> = TrackNode<Key<I>, Data<I>, NotAlignedData<I>>;

type TrackRange = (usize, usize);

type Output<I> = <I as TrackInterpolator>::Output;

/// A pair of consecutive nodes bracketing a query key, by node counter, with
/// the keys they answer for.
pub struct NearbyNodes<I: TrackInterpolator> {
    pub begin_index: usize,
    pub begin_key: Key<I>,
    pub end_index: usize,
    pub end_key: Key<I>,
}

/// A sliding-window interpolation track.
pub struct Track<I: TrackInterpolator> {
    interpolator: I,
    ranges: Buffer<TrackRange>,
    buf: Buffer<Node<I>>,
    aligned_step: KeyDistance<I>,
    next_step: KeyDistance<I>,
    key_start: Key<I>,
    key_end: Key<I>,
}

impl<I: TrackInterpolator> Track<I> {
    /// The nodes held, oldest first.
    pub closed spec fn nodes(&self) -> Seq<Node<I>> {
        self.buf@
    }

    /// The per-cell ranges of node counters, oldest cell first.
    pub closed spec fn rngs(&self) -> Seq<TrackRange> {
        self.ranges@
    }

    /// Integer model of the key of the oldest node.
    pub closed spec fn ks(&self) -> int {
        self.key_start.key_int()
    }

    /// Integer model of the key of the most recently pushed node.
    pub closed spec fn ke(&self) -> int {
        self.key_end.key_int()
    }

    /// Integer model of the grid step.
    pub closed spec fn step(&self) -> int {
        self.aligned_step.dist_int()
    }

    /// Integer model of the distance from `key_end` to the next aligned key.
    pub closed spec fn ns(&self) -> int {
        self.next_step.dist_int()
    }

    /// Node-buffer capacity.
    pub closed spec fn cap(&self) -> int {
        self.buf.spec_capacity()
    }

    /// Range-buffer capacity.
    pub closed spec fn rcap(&self) -> int {
        self.ranges.spec_capacity()
    }

    /// The interpolator.
    pub closed spec fn interp(&self) -> I {
        self.interpolator
    }

    /// Number of nodes held.
    pub open spec fn nlen(&self) -> int {
        self.nodes().len() as int
    }

    /// Number of ranges held.
    pub open spec fn rlen(&self) -> int {
        self.rngs().len() as int
    }

    /// The counter of the oldest node still held.
    pub open spec fn base(&self) -> int {
        if self.rlen() == 0 {
            0
        } else {
            self.rngs()[0].0 as int
        }
    }

    /// The key of grid point `i`, counted from `key_start`.
    pub open spec fn grid(&self, i: int) -> int {
        self.ks() + self.step() * i
    }

    /// The node with counter `c`.
    pub open spec fn node_at(&self, c: int) -> Node<I> {
        self.nodes()[c - self.base()]
    }

    /// The most recently pushed node.
    pub open spec fn leading(&self) -> Node<I> {
        self.nodes().last()
    }

    /// The key carried by a not-aligned node.
    pub open spec fn na_key(n: Node<I>) -> int {
        match n {
            TrackNode::NotAligned(x) => x.key.key_int(),
            TrackNode::Aligned(_) => 0,
        }
    }

    /// Well-formedness of the range at position `i`: it starts at an aligned
    /// node, and its interior nodes are not-aligned, with strictly increasing
    /// keys inside the cell's key interval.
    pub open spec fn range_ok(&self, i: int) -> bool {
        let b = self.rngs()[i].0 as int;
        let e = self.rngs()[i].1 as int;
        &&& b < e
        &&& self.node_at(b) is Aligned
        &&& forall|c: int| b < c < e ==> (#[trigger] self.node_at(c)) is NotAligned
        &&& forall|c: int|
            b < c < e ==> self.grid(i) < Self::na_key(#[trigger] self.node_at(c)) <= self.grid(
                i + 1,
            )
        &&& forall|c1: int, c2: int|
            #![trigger self.node_at(c1), self.node_at(c2)]
            b < c1 < c2 < e ==> Self::na_key(self.node_at(c1)) <= Self::na_key(self.node_at(c2))
    }

    /// Distance representability, abbreviated.
    pub open spec fn d_rep(x: int) -> bool {
        <KeyDistance<I> as TrackKeyDistance>::dist_rep(x)
    }

    /// Key representability, abbreviated.
    pub open spec fn k_rep(x: int) -> bool {
        <Key<I> as TrackKey>::key_rep(x)
    }

    /// The track's invariant. It holds after construction and is preserved by
    /// every operation; the `lemma_invariant_*` proof functions state its
    /// observable consequences.
    pub closed spec fn wf(&self) -> bool {
        &&& self.buf.inv()
        &&& self.ranges.inv()
        &&& !self.buf.spec_reversed()
        &&& !self.ranges.spec_reversed()
        &&& self.cap() >= 2
        &&& self.rcap() >= 1
        &&& self.cap() >= self.rcap() + 1
        &&& self.step() > 0
        &&& Self::d_rep(self.step())
        &&& Self::d_rep(self.ns())
        &&& Self::d_rep(self.ke() - self.ks())
        &&& Self::d_rep(self.step() * self.rlen())
        &&& Self::k_rep(self.grid(self.rlen()))
        &&& 0 <= self.ns() <= self.step()
        &&& if self.rlen() == 0 {
            &&& self.nlen() <= 1
            &&& self.ke() == self.ks()
            &&& self.ns() == self.step()
            &&& (self.nlen() == 1 ==> self.nodes()[0] is Aligned)
        } else {
            &&& self.nlen() >= 2
            &&& self.rlen() <= self.rcap()
            &&& self.rngs()[self.rlen() - 1].1 == self.base() + self.nlen() - 1
            &&& forall|i: int|
                0 <= i < self.rlen() - 1 ==> (#[trigger] self.rngs()[i]).1 == self.rngs()[i + 1].0
            &&& forall|i: int| 0 <= i < self.rlen() ==> self.range_ok(i)
            &&& if self.leading() is Aligned {
                &&& self.ke() == self.grid(self.rlen())
                &&& self.ns() == self.step()
            } else {
                &&& self.ke() == Self::na_key(self.leading())
                &&& self.grid(self.rlen() - 1) < self.ke() <= self.grid(self.rlen())
                &&& self.ns() == self.grid(self.rlen()) - self.ke()
                &&& forall|c: int|
                    self.rngs()[self.rlen() - 1].0 < c < self.rngs()[self.rlen() - 1].1
                        ==> Self::na_key(#[trigger] self.node_at(c)) <= self.ke()
            }
        }
    }

    /// An empty track with node capacity `track_size` and grid step
    /// `aligned_step`, anchored at the default key.
    pub fn new(interpolator: I, track_size: usize, aligned_step: KeyDistance<I>) -> (r: Self)
        requires
            track_size > 1,
            aligned_step.dist_int() > 0,
        ensures
            r.wf(),
            r.nlen() == 0,
            r.rlen() == 0,
            r.ks() == 0,
            r.ke() == 0,
            r.step() == aligned_step.dist_int(),
            r.ns() == aligned_step.dist_int(),
            r.cap() == track_size,
            r.rcap() == track_size - 1,
            r.interp() == interpolator,
    {
        proof {
            aligned_step.lemma_dist_rep_val();
            <KeyDistance<I> as TrackKeyDistance>::lemma_dist_rep_zero();
        }
        let next_step = aligned_step.dup();
        let key_start = Key::<I>::key_default();
        let key_end = Key::<I>::key_default();
        proof {
            key_start.lemma_key_rep_val();
        }
        let r = Track {
            interpolator,
            ranges: Buffer::new(track_size - 1),
            buf: Buffer::new(track_size),
            aligned_step,
            next_step,
            key_start,
            key_end,
        };
        proof {
            assert(r.rlen() == 0);
            assert(r.step() * r.rlen() == 0) by (nonlinear_arith)
                requires
                    r.rlen() == 0,
            ;
        }
        r
    }

    /// The key of the node at buffer position 0.
    pub fn key_start(&self) -> (r: &Key<I>)
        ensures
            r.key_int() == self.ks(),
    {
        &self.key_start
    }

    /// The key of the most recently pushed node. Equals `key_start` for an
    /// empty track.
    pub fn key_end(&self) -> (r: &Key<I>)
        ensures
            r.key_int() == self.ke(),
    {
        &self.key_end
    }

    /// Whether the track holds no nodes.
    pub fn is_empty(&self) -> (r: bool)
        requires
            self.wf(),
        ensures
            r == (self.nlen() == 0),
    {
        self.buf.is_empty()
    }

    /// The oldest node, if any.
    pub fn node_start(&self) -> (r: Option<&Node<I>>)
        requires
            self.wf(),
        ensures
            match r {
                Some(n) => self.nlen() > 0 && *n == self.nodes()[0],
                None => self.nlen() == 0,
            },
    {
        self.buf.first()
    }

    /// The most recently pushed node, if any.
    pub fn node_end(&self) -> (r: Option<&Node<I>>)
        requires
            self.wf(),
        ensures
            match r {
                Some(n) => self.nlen() > 0 && *n == self.leading(),
                None => self.nlen() == 0,
            },
    {
        self.buf.last()
    }

    /// Empties the track and re-anchors it at `new_key_start`, returning the
    /// former nodes in buffer order.
    pub fn reset_track(&mut self, new_key_start: Key<I>) -> (r: Truncated<Node<I>>)
        requires
            old(self).wf(),
        ensures
            final(self).wf(),
            final(self).nlen() == 0,
            final(self).rlen() == 0,
            final(self).ks() == new_key_start.key_int(),
            final(self).ke() == new_key_start.key_int(),
            final(self).ns() == old(self).step(),
            final(self).step() == old(self).step(),
            final(self).cap() == old(self).cap(),
            final(self).rcap() == old(self).rcap(),
            final(self).interp() == old(self).interp(),
            r@ == old(self).nodes(),
    {
        proof {
            new_key_start.lemma_key_rep_val();
            <KeyDistance<I> as TrackKeyDistance>::lemma_dist_rep_zero();
        }
        let _cleared = self.ranges.clear();
        self.key_start = new_key_start.dup();
        self.next_step = self.aligned_step.dup();
        self.key_end = new_key_start;
        let r = self.buf.clear();
        proof {
            assert(r@ =~= old(self).nodes());
        }
        r
    }

    /// The grid step the track was created with.
    pub fn aligned_step(&self) -> (r: &KeyDistance<I>)
        ensures
            r.dist_int() == self.step(),
    {
        &self.aligned_step
    }

    /// The distance from `key_end` to where the next aligned push will land.
    pub fn next_step(&self) -> (r: &KeyDistance<I>)
        ensures
            r.dist_int() == self.ns(),
    {
        &self.next_step
    }

    /// The number of nodes held.
    pub fn nodes_len(&self) -> (r: usize)
        ensures
            r == self.nlen(),
    {
        self.buf.len()
    }

    /// The node buffer's capacity.
    pub fn node_capacity(&self) -> (r: usize)
        ensures
            r == self.cap(),
    {
        self.buf.capacity()
    }

    /// The number of ranges held.
    pub fn ranges_len(&self) -> (r: usize)
        ensures
            r == self.rlen(),
    {
        self.ranges.len()
    }

    /// The range table's capacity.
    pub fn range_capacity(&self) -> (r: usize)
        ensures
            r == self.rcap(),
    {
        self.ranges.capacity()
    }

    /// The range at position `i`.
    pub fn range_at(&self, i: usize) -> (r: TrackRange)
        requires
            self.wf(),
            i < self.rlen(),
        ensures
            r == self.rngs()[i as int],
    {
        *self.ranges.get(i)
    }

    /// The node at buffer position `i`.
    pub fn node_ref(&self, i: usize) -> (r: &Node<I>)
        requires
            self.wf(),
            i < self.nlen(),
        ensures
            *r == self.nodes()[i as int],
    {
        self.buf.get(i)
    }

    /// Whether `key` lies strictly inside `(key_start, key_end)`.
    fn is_key_in_inner_range(&self, key: &Key<I>) -> (r: bool)
        ensures
            r == (self.ks() < key.key_int() < self.ke()),
    {
        self.key_start.key_lt(key) && key.key_lt(&self.key_end)
    }

    /// Whether `key` is at or past `key_start`.
    fn is_forward_key(&self, key: &Key<I>) -> (r: bool)
        ensures
            r == (self.ks() <= key.key_int()),
    {
        self.key_start.key_le(key)
    }

    /// The index of the grid cell containing `key`.
    pub open spec fn cell_of(&self, k: int) -> int {
        (k - self.ks()) / self.step()
    }

    /// The index of the grid cell containing `key`.
    pub fn range_index(&self, key: &Key<I>) -> (r: usize)
        requires
            self.wf(),
            key.key_int() >= self.ks(),
            Self::d_rep(key.key_int() - self.ks()),
            self.cell_of(key.key_int()) <= usize::MAX,
        ensures
            r == self.cell_of(key.key_int()),
    {
        let d = self.key_start.distance(key);
        d.div_floor(&self.aligned_step)
    }

    /// The key `steps` grid steps past `key`.
    fn increase_key_by_step(&self, key: &Key<I>, steps: usize) -> (r: Key<I>)
        requires
            self.wf(),
            Self::d_rep(self.step() * steps),
            Self::k_rep(key.key_int() + self.step() * steps),
        ensures
            r.key_int() == key.key_int() + self.step() * steps,
    {
        let d = self.aligned_step.scale(steps);
        key.add_distance(&d)
    }

    /// The grid key at which the range at position `range_index` begins.
    fn range_index_to_key(&self, range_index: usize) -> (r: Key<I>)
        requires
            self.wf(),
            range_index < self.rlen(),
        ensures
            r.key_int() == self.grid(range_index as int),
    {
        proof {
            self.lemma_grid_rep(range_index as int);
        }
        self.increase_key_by_step(&self.key_start, range_index)
    }

    /// Every grid key up to the range count is representable, as are the
    /// distances to it.
    proof fn lemma_grid_rep(&self, i: int)
        requires
            self.wf(),
            0 <= i <= self.rlen(),
        ensures
            Self::d_rep(self.step() * i),
            Self::k_rep(self.ks() + self.step() * i),
            self.ks() <= self.grid(i) <= self.grid(self.rlen()),
    {
        let l = self.rlen();
        assert(self.step() * i >= 0) by (nonlinear_arith)
            requires
                self.step() > 0,
                i >= 0,
        ;
        assert(self.step() * i <= self.step() * l) by (nonlinear_arith)
            requires
                self.step() > 0,
                0 <= i <= l,
        ;
        <KeyDistance<I> as TrackKeyDistance>::lemma_dist_rep_zero();
        <KeyDistance<I> as TrackKeyDistance>::lemma_dist_rep_between(
            0,
            self.step() * i,
            self.step() * l,
        );
        self.key_start.lemma_key_rep_val();
        <Key<I> as TrackKey>::lemma_key_rep_between(
            self.ks(),
            self.ks() + self.step() * i,
            self.ks() + self.step() * l,
        );
    }

    /// The counter one past the newest node, as recorded in the last range.
    pub open spec fn last_end(&self) -> usize {
        self.rngs()[self.rlen() - 1].1
    }

    /// Ranges are ordered: begins and ends are non-decreasing, and an earlier
    /// range ends no later than a later one begins.
    proof fn lemma_ranges_step(&self, i: int, j: int)
        requires
            self.wf(),
            0 <= i <= j < self.rlen(),
        ensures
            self.rngs()[i].1 <= self.rngs()[j].1,
            self.rngs()[i].0 <= self.rngs()[j].0,
            i < j ==> self.rngs()[i].1 <= self.rngs()[j].0,
        decreases j - i,
    {
        if i < j {
            self.lemma_ranges_step(i, j - 1);
            assert(self.range_ok(j));
            assert(self.range_ok(j - 1));
            assert(self.rngs()[j - 1].1 == self.rngs()[j].0);
        } else {
            assert(self.range_ok(i));
        }
    }

    /// Every range's counters lie within the window of held nodes.
    proof fn lemma_range_counters(&self, i: int)
        requires
            self.wf(),
            0 <= i < self.rlen(),
        ensures
            self.base() <= self.rngs()[i].0,
            self.rngs()[i].0 < self.rngs()[i].1,
            self.rngs()[i].1 <= self.base() + self.nlen() - 1,
    {
        self.lemma_ranges_step(0, i);
        self.lemma_ranges_step(i, self.rlen() - 1);
        assert(self.range_ok(i));
    }

    /// Two tracks with the same observable state are both well-formed or
    /// neither is.
    proof fn lemma_wf_same(a: Self, b: Self)
        requires
            a.wf(),
            b.buf.inv(),
            b.ranges.inv(),
            !b.buf.spec_reversed(),
            !b.ranges.spec_reversed(),
            b.nodes() == a.nodes(),
            b.rngs() == a.rngs(),
            b.ks() == a.ks(),
            b.ke() == a.ke(),
            b.ns() == a.ns(),
            b.step() == a.step(),
            b.cap() == a.cap(),
            b.rcap() == a.rcap(),
        ensures
            b.wf(),
    {
        assert forall|c: int| (#[trigger] b.node_at(c)) == a.node_at(c) by {}
        assert forall|i: int| 0 <= i < b.rlen() implies b.range_ok(i) by {
            assert(a.range_ok(i));
        }
    }

    /// A push of an aligned or not-aligned node is refused: either the node
    /// buffer is full and spans more than one cell, or the new node would
    /// open a new cell and the range table is full.
    pub open spec fn push_blocked(pre: Self) -> bool {
        &&& pre.nlen() > 0
        &&& pre.rlen() > 0
        &&& ((pre.nlen() == pre.cap() && pre.rlen() != 1) || (pre.leading() is Aligned
            && pre.rlen() == pre.rcap()))
    }

    /// How a successful push of `node` onto a track with at least one range
    /// changes the buffers: the node is appended; if the leading node was
    /// aligned a new one-node range opens, otherwise the last range widens;
    /// the node buffer grows by half exactly when it was full.
    pub open spec fn push_step(pre: Self, post: Self, node: Node<I>) -> bool {
        &&& post.nodes() == pre.nodes().push(node)
        &&& post.rngs() == if pre.leading() is Aligned {
            pre.rngs().push((pre.last_end(), (pre.last_end() + 1) as usize))
        } else {
            pre.rngs().update(
                pre.rlen() - 1,
                (pre.rngs()[pre.rlen() - 1].0, (pre.last_end() + 1) as usize),
            )
        }
        &&& post.cap() == if pre.nlen() == pre.cap() {
            pre.cap() + pre.cap() / 2
        } else {
            pre.cap()
        }
    }

    /// What a successful `push_aligned` does. The first node anchors the
    /// track without advancing its keys; a second node opens the first range;
    /// later nodes follow `push_step`. In every non-empty case the leading
    /// edge advances by `next_step` and `next_step` returns to the grid step.
    pub open spec fn push_aligned_ok(pre: Self, post: Self, d: Data<I>) -> bool {
        &&& post.ks() == pre.ks()
        &&& if pre.nlen() == 0 {
            &&& post.nodes() == pre.nodes().push(TrackNode::Aligned(d))
            &&& post.rngs() == pre.rngs()
            &&& post.ke() == pre.ke()
            &&& post.ns() == pre.ns()
            &&& post.cap() == pre.cap()
        } else {
            &&& post.ke() == pre.ke() + pre.ns()
            &&& post.ns() == pre.step()
            &&& if pre.rlen() == 0 {
                &&& post.nodes() == pre.nodes().push(TrackNode::Aligned(d))
                &&& post.rngs() == seq![(0usize, 1usize)]
                &&& post.cap() == pre.cap()
            } else {
                Self::push_step(pre, post, TrackNode::Aligned(d))
            }
        }
    }

    /// Machine-size room for one more push: the node counters and, where a
    /// growth could be triggered, the capacity stay within `usize`.
    pub open spec fn push_room(pre: Self) -> bool {
        &&& (pre.rlen() > 0 ==> pre.last_end() < usize::MAX)
        &&& ((pre.nlen() == pre.cap() && pre.rlen() == 1) ==> pre.cap() + pre.cap() / 2
            <= usize::MAX)
    }

    /// Key-space room for one more push: the key one `next_step` past the
    /// leading edge is representable.
    pub open spec fn push_key_room(pre: Self) -> bool {
        pre.nlen() > 0 ==> Self::k_rep(pre.ke() + pre.ns()) && Self::d_rep(
            pre.ke() + pre.ns() - pre.ks(),
        )
    }

    /// Pushes `node` onto a track that already has at least one range,
    /// following `push_step`. Key fields are left to the caller.
    fn push_helper(&mut self, node: Node<I>) -> (r: core::result::Result<(), Error>)
        requires
            old(self).wf(),
            old(self).rlen() > 0,
            Self::push_room(*old(self)),
        ensures
            final(self).buf.inv(),
            final(self).ranges.inv(),
            !final(self).buf.spec_reversed(),
            !final(self).ranges.spec_reversed(),
            final(self).ks() == old(self).ks(),
            final(self).ke() == old(self).ke(),
            final(self).ns() == old(self).ns(),
            final(self).step() == old(self).step(),
            final(self).rcap() == old(self).rcap(),
            final(self).interp() == old(self).interp(),
            final(self).cap() >= old(self).cap(),
            match r {
                Ok(()) => !Self::push_blocked(*old(self)) && Self::push_step(
                    *old(self),
                    *final(self),
                    node,
                ),
                Err(e) => {
                    &&& e == Error::Overflow
                    &&& Self::push_blocked(*old(self))
                    &&& final(self).nodes() == old(self).nodes()
                    &&& final(self).rngs() == old(self).rngs()
                    &&& final(self).cap() == old(self).cap()
                },
            },
    {
        proof {
            self.lemma_range_counters(self.rlen() - 1);
        }
        let leading_aligned = match self.buf.last() {
            Some(n) => n.is_aligned(),
            None => {
                proof {
                    assert(false);
                }
                true
            },
        };
        if leading_aligned && self.ranges.len() == self.ranges.capacity() {
            return Err(Error::Overflow);
        }
        if self.buf.len() == self.buf.capacity() {
            if self.ranges.len() == 1 {
                self.buf.grow();
            } else {
                return Err(Error::Overflow);
            }
        }
        match self.buf.try_push(node) {
            Ok(()) => {},
            Err(_) => {
                proof {
                    assert(false);
                }
            },
        }
        let last_pos = self.ranges.len() - 1;
        let last = *self.ranges.get(last_pos);
        if leading_aligned {
            match self.ranges.try_push((last.1, last.1 + 1)) {
                Ok(()) => {},
                Err(_) => {
                    proof {
                        assert(false);
                    }
                },
            }
        } else {
            self.ranges.set(last_pos, (last.0, last.1 + 1));
        }
        Ok(())
    }

    /// Appends an aligned sample at the leading edge and advances `key_end`
    /// by `next_step`. Fails with `Overflow` exactly when `push_blocked`
    /// holds, leaving the track unchanged.
    pub fn push_aligned(&mut self, node: Data<I>) -> (r: core::result::Result<(), Error>)
        requires
            old(self).wf(),
            Self::push_room(*old(self)),
            Self::push_key_room(*old(self)),
        ensures
            final(self).wf(),
            final(self).step() == old(self).step(),
            final(self).rcap() == old(self).rcap(),
            final(self).ks() == old(self).ks(),
            final(self).interp() == old(self).interp(),
            match r {
                Ok(()) => Self::push_aligned_ok(*old(self), *final(self), node),
                Err(e) => {
                    &&& e == Error::Overflow
                    &&& Self::push_blocked(*old(self))
                    &&& final(self).nodes() == old(self).nodes()
                    &&& final(self).rngs() == old(self).rngs()
                    &&& final(self).ke() == old(self).ke()
                    &&& final(self).ns() == old(self).ns()
                    &&& final(self).cap() == old(self).cap()
                },
            },
            (r is Err) == Self::push_blocked(*old(self)),
    {
        if self.buf.is_empty() {
            match self.buf.try_push(TrackNode::Aligned(node)) {
                Ok(()) => {},
                Err(_) => {
                    proof {
                        assert(false);
                    }
                },
            }
            return Ok(());
        }
        if self.ranges.is_empty() {
            match self.buf.try_push(TrackNode::Aligned(node)) {
                Ok(()) => {},
                Err(_) => {
                    proof {
                        assert(false);
                    }
                },
            }
            match self.ranges.try_push((0, 1)) {
                Ok(()) => {},
                Err(_) => {
                    proof {
                        assert(false);
                    }
                },
            }
            proof {
                assert(self.rngs() =~= seq![(0usize, 1usize)]);
            }
        } else {
            match self.push_helper(TrackNode::Aligned(node)) {
                Ok(()) => {},
                Err(e) => {
                    proof {
                        Self::lemma_wf_same(*old(self), *self);
                    }
                    return Err(e);
                },
            }
        }
        let new_end = self.key_end.add_distance(&self.next_step);
        self.key_end = new_end;
        self.next_step = self.aligned_step.dup();
        proof {
            self.key_end.lemma_key_rep_val();
            Self::lemma_push_aligned_wf(*old(self), *self, node);
        }
        Ok(())
    }

    /// A successful non-empty push preserves the invariant.
    proof fn lemma_push_aligned_wf(pre: Self, post: Self, d: Data<I>)
        requires
            pre.wf(),
            pre.nlen() > 0,
            Self::push_key_room(pre),
            Self::push_room(pre),
            Self::push_aligned_ok(pre, post, d),
            post.buf.inv(),
            post.ranges.inv(),
            !post.buf.spec_reversed(),
            !post.ranges.spec_reversed(),
            post.step() == pre.step(),
            post.rcap() == pre.rcap(),
            post.cap() >= pre.cap(),
            post.rlen() <= post.rcap(),
            Self::k_rep(post.ke()),
        ensures
            post.wf(),
    {
        let l = pre.rlen();
        assert(post.step() * 1 == post.step()) by (nonlinear_arith);
        if l == 0 {
            assert(post.rlen() == 1);
            assert(post.grid(1) == post.ks() + post.step());
            assert(post.range_ok(0));
        } else {
            assert(pre.range_ok(l - 1));
            pre.lemma_range_counters(l - 1);
            if pre.leading() is Aligned {
                assert(post.rlen() == l + 1);
                assert(post.step() * (l + 1) == post.step() * l + post.step()) by (
                nonlinear_arith);
                assert(pre.ke() - pre.ks() == pre.step() * l);
                assert(post.ke() - post.ks() == post.step() * (l + 1));
                assert(post.base() == pre.base());
                assert forall|i: int| 0 <= i < post.rlen() implies post.range_ok(i) by {
                    if i < l {
                        assert(pre.range_ok(i));
                        pre.lemma_range_counters(i);
                        assert forall|c: int|
                            post.rngs()[i].0 < c < post.rngs()[i].1 implies post.node_at(c)
                            == pre.node_at(c) by {}
                    } else {
                        assert(post.rngs()[i].0 == pre.last_end());
                        assert(post.node_at(pre.last_end() as int) == pre.leading());
                    }
                }
            } else {
                assert(post.rlen() == l);
                assert(post.base() == pre.base());
                assert(post.ke() == pre.grid(l));
                assert forall|i: int| 0 <= i < post.rlen() implies post.range_ok(i) by {
                    pre.lemma_range_counters(i);
                    if i < l - 1 {
                        assert(pre.range_ok(i));
                        pre.lemma_ranges_step(i, l - 1);
                        assert forall|c: int|
                            post.rngs()[i].0 < c < post.rngs()[i].1 implies post.node_at(c)
                            == pre.node_at(c) by {}
                    } else {
                        assert(pre.range_ok(i));
                        assert forall|c: int|
                            post.rngs()[i].0 < c < post.rngs()[i].1 implies post.node_at(c)
                            == pre.node_at(c) by {}
                    }
                }
            }
        }
    }

    /// The virtual key of counter `c` within the range at position `i`: the
    /// range's begin answers the cell's grid key, an aligned end answers the
    /// next grid key, and a not-aligned node answers its own key.
    pub open spec fn vkey(&self, i: int, c: int) -> int {
        if c == self.rngs()[i].0 {
            self.grid(i)
        } else if self.node_at(c) is Aligned {
            self.grid(i + 1)
        } else {
            Self::na_key(self.node_at(c))
        }
    }

    /// The largest counter in `[begin, c]` of the range at position `i` whose
    /// virtual key is at most `k`, or `begin` if there is none.
    pub open spec fn blo(&self, i: int, c: int, k: int) -> int
        decreases c - self.rngs()[i].0,
    {
        if c <= self.rngs()[i].0 {
            self.rngs()[i].0 as int
        } else if self.vkey(i, c) <= k {
            c
        } else {
            self.blo(i, c - 1, k)
        }
    }

    /// Virtual keys are sorted along a range.
    proof fn lemma_vkey_sorted(&self, i: int)
        requires
            self.wf(),
            0 <= i < self.rlen(),
        ensures
            forall|c1: int, c2: int|
                #![trigger self.vkey(i, c1), self.vkey(i, c2)]
                self.rngs()[i].0 <= c1 <= c2 <= self.rngs()[i].1 ==> self.vkey(i, c1)
                    <= self.vkey(i, c2),
            self.vkey(i, self.rngs()[i].0 as int) == self.grid(i),
            self.grid(i) < self.vkey(i, self.rngs()[i].1 as int),
    {
        let b = self.rngs()[i].0 as int;
        let e = self.rngs()[i].1 as int;
        assert(self.range_ok(i));
        self.lemma_range_counters(i);
        assert(self.step() * (i + 1) == self.step() * i + self.step()) by (nonlinear_arith);
        if i < self.rlen() - 1 {
            assert(self.range_ok(i + 1));
            assert(self.node_at(e) is Aligned);
        } else {
            assert(e == self.base() + self.nlen() - 1);
            assert(self.node_at(e) == self.leading());
        }
        assert forall|c1: int, c2: int|
            #![trigger self.vkey(i, c1), self.vkey(i, c2)]
            b <= c1 <= c2 <= e implies self.vkey(i, c1) <= self.vkey(i, c2) by {
            if c1 != b && c2 == e && c1 != e {
                if self.node_at(e) is Aligned {
                } else {
                    assert(Self::na_key(self.node_at(c1)) <= self.ke());
                }
            }
        }
    }

    /// Pins the recursive scan `blo` to a counter known to be the largest one
    /// with virtual key at most `k`.
    proof fn lemma_blo_pin(&self, i: int, c: int, k: int, res: int)
        requires
            0 <= i < self.rlen(),
            self.rngs()[i].0 <= res <= c,
            self.vkey(i, res) <= k,
            forall|j: int| res < j <= c ==> #[trigger] self.vkey(i, j) > k,
        ensures
            self.blo(i, c, k) == res,
        decreases c - res,
    {
        if c > res {
            self.lemma_blo_pin(i, c - 1, k, res);
        }
    }

    /// For a key inside the track's span, the containing cell index is a
    /// valid range position, the key sits between that cell's boundaries, and
    /// the arithmetic to find it stays in range.
    proof fn lemma_cell_bounds(&self, k: int)
        requires
            self.wf(),
            self.ks() <= k < self.ke(),
        ensures
            0 <= self.cell_of(k) < self.rlen(),
            self.grid(self.cell_of(k)) <= k,
            k < self.grid(self.cell_of(k) + 1),
            Self::d_rep(k - self.ks()),
            self.cell_of(k) <= usize::MAX,
            k < self.vkey(self.cell_of(k), self.rngs()[self.cell_of(k)].1 as int),
    {
        let s = self.step();
        let l = self.rlen();
        let d = k - self.ks();
        let i = self.cell_of(k);
        assert(self.ke() <= self.grid(l));
        assert(0 <= d < s * l);
        assert(0 <= d / s < l) by (nonlinear_arith)
            requires
                s > 0,
                0 <= d < s * l,
        ;
        assert(s * (d / s) <= d < s * (d / s) + s) by (nonlinear_arith)
            requires
                s > 0,
                0 <= d,
        ;
        assert(s * (i + 1) == s * i + s) by (nonlinear_arith);
        <KeyDistance<I> as TrackKeyDistance>::lemma_dist_rep_zero();
        <KeyDistance<I> as TrackKeyDistance>::lemma_dist_rep_between(0, d, self.ke() - self.ks());
        self.ranges.lemma_len_bound();
        let e = self.rngs()[i].1 as int;
        self.lemma_range_counters(i);
        if i < l - 1 {
            assert(self.range_ok(i + 1));
            assert(self.node_at(e) is Aligned);
            assert(self.vkey(i, e) == self.grid(i + 1));
        } else {
            assert(e == self.base() + self.nlen() - 1);
            assert(self.node_at(e) == self.leading());
            if self.leading() is Aligned {
                assert(self.vkey(i, e) == self.grid(l));
            } else {
                assert(self.vkey(i, e) == self.ke());
            }
        }
    }

    /// The counter of the oldest node still held.
    fn base_idx(&self) -> (r: usize)
        requires
            self.wf(),
        ensures
            r == self.base(),
    {
        match self.ranges.first() {
            Some(f) => f.0,
            None => 0,
        }
    }

    /// The pair of consecutive nodes of the range at `range_index` whose
    /// virtual keys bracket `key`, together with those keys.
    pub fn find_nearby_nodes_in_range(&self, range_index: usize, key: &Key<I>) -> (r: NearbyNodes<
        I,
    >)
        requires
            self.wf(),
            range_index < self.rlen(),
            self.grid(range_index as int) <= key.key_int(),
            key.key_int() <= self.vkey(range_index as int, self.rngs()[range_index as int].1 as int),
        ensures
            ({
                let i = range_index as int;
                let lo = self.blo(i, self.rngs()[i].1 - 1, key.key_int());
                &&& r.begin_index == lo
                &&& r.begin_key.key_int() == self.vkey(i, lo)
                &&& r.end_index == lo + 1
                &&& self.rngs()[i].0 <= lo < self.rngs()[i].1
                &&& r.end_key.key_int() == self.vkey(i, lo + 1)
            }),
    {
        let ghost i = range_index as int;
        proof {
            self.lemma_range_counters(i);
            self.lemma_vkey_sorted(i);
            assert(self.range_ok(i));
            if i < self.rlen() - 1 {
                assert(self.range_ok(i + 1));
                assert(self.node_at(self.rngs()[i].1 as int) is Aligned);
            } else {
                assert(self.node_at(self.rngs()[i].1 as int) == self.leading());
            }
        }
        let range = *self.ranges.get(range_index);
        let base = self.base_idx();
        let begin_key = self.range_index_to_key(range_index);
        let end_key = match self.buf.get(range.1 - base) {
            TrackNode::Aligned(_) => {
                proof {
                    self.lemma_grid_rep(i + 1);
                    assert(self.step() * (i + 1) == self.step() * i + self.step()) by (
                    nonlinear_arith);
                }
                begin_key.add_distance(&self.aligned_step)
            },
            TrackNode::NotAligned(n) => n.key.dup(),
        };
        proof {
            assert(end_key.key_int() == self.vkey(i, range.1 as int));
        }
        let adapter = TrackRangeAdapter::<I>::new(
            &self.buf,
            range,
            base,
            begin_key,
            end_key.dup(),
            Ghost(*self),
            Ghost(i),
        );
        proof {
            assert forall|c: int| range.0 <= c < range.1 implies adapter.index_valid(c) by {}
            assert forall|c1: int, c2: int|
                #![trigger adapter.key_at(c1), adapter.key_at(c2)]
                range.0 <= c1 <= c2 < range.1 implies adapter.key_at(c1) <= adapter.key_at(
                c2) by {
                assert(adapter.key_at(c1) == self.vkey(i, c1));
                assert(adapter.key_at(c2) == self.vkey(i, c2));
            }
            assert(adapter.key_at(range.0 as int) == self.vkey(i, range.0 as int));
        }
        let (begin_index, found) = crate::search::search(&adapter, range.0, range.1, key);
        let begin_key_out = found.dup();
        proof {
            assert forall|j: int|
                begin_index < j <= range.1 - 1 implies #[trigger] self.vkey(i, j)
                > key.key_int() by {
                assert(adapter.key_at(j) == self.vkey(i, j));
            }
            assert(self.vkey(i, begin_index as int) == adapter.key_at(begin_index as int));
            self.lemma_blo_pin(i, range.1 - 1, key.key_int(), begin_index as int);
        }
        let end_index = begin_index + 1;
        let ghost lo = begin_index as int;
        let end_key_out = match self.buf.get(end_index - base) {
            TrackNode::Aligned(_) => {
                proof {
                    assert(self.node_at(lo + 1) is Aligned);
                    assert(lo + 1 == range.1 as int);
                }
                end_key
            },
            TrackNode::NotAligned(n) => {
                proof {
                    assert(self.node_at(lo + 1) is NotAligned);
                }
                n.key.dup()
            },
        };
        NearbyNodes { begin_index, begin_key: begin_key_out, end_index, end_key: end_key_out }
    }

    /// The number of buffer slots between two node counters, wrapped to the
    /// node capacity.
    fn wrap_buf_index(&self, buf_index: usize, begin_index: usize) -> (r: usize)
        requires
            self.buf.inv(),
            begin_index <= buf_index,
        ensures
            r == (buf_index - begin_index) as int % self.cap(),
    {
        self.buf.wrap_raw_index(buf_index - begin_index)
    }

    /// How many trailing cells `truncate_back` drops for `k`: the cells below
    /// the one containing `k`, but never the last cell.
    pub open spec fn trunc_count(&self, k: int) -> int {
        let c = self.cell_of(k);
        if c >= self.rlen() {
            self.rlen() - 1
        } else {
            c
        }
    }

    /// Removes trailing samples whose keys fall below the grid cell
    /// containing `key`. Keys behind `key_start` and tracks with fewer than
    /// two cells are left untouched; the last cell is never dropped.
    pub fn truncate_back(&mut self, key: &Key<I>)
        requires
            old(self).wf(),
            old(self).ks() <= key.key_int() ==> Self::d_rep(key.key_int() - old(self).ks()) && (
            key.key_int() - old(self).ks()) / old(self).step() <= usize::MAX,
        ensures
            final(self).wf(),
            final(self).ke() == old(self).ke(),
            final(self).ns() == old(self).ns(),
            final(self).step() == old(self).step(),
            final(self).cap() == old(self).cap(),
            final(self).rcap() == old(self).rcap(),
            final(self).interp() == old(self).interp(),
            if key.key_int() < old(self).ks() || old(self).rlen() < 2 {
                &&& final(self).nodes() == old(self).nodes()
                &&& final(self).rngs() == old(self).rngs()
                &&& final(self).ks() == old(self).ks()
            } else {
                let dropped = old(self).trunc_count(key.key_int());
                &&& final(self).rngs() == old(self).rngs().skip(dropped)
                &&& final(self).ks() == old(self).ks() + old(self).step() * dropped
                &&& final(self).nodes() == old(self).nodes().skip(
                    old(self).rngs()[dropped].0 - old(self).base(),
                )
            },
    {
        if !self.is_forward_key(key) || self.ranges.len() < 2 {
            return;
        }
        let ghost pre = *old(self);
        let ghost dropped = pre.trunc_count(key.key_int());
        proof {
            pre.lemma_range_counters(0);
            pre.lemma_range_counters(dropped);
            pre.lemma_ranges_step(0, dropped);
            pre.lemma_grid_rep(dropped);
            self.ranges.lemma_len_bound();
        }
        let old_begin = (*self.ranges.get(0)).0;
        let range_index = self.range_index(key);
        let removed_ranges = self.ranges.truncate_back(range_index);
        let removed_count = removed_ranges.len();
        proof {
            assert(removed_count == dropped);
        }
        let new_start = self.increase_key_by_step_pre(&self.key_start, removed_count, Ghost(pre));
        self.key_start = new_start;
        let new_begin = (*self.ranges.get(0)).0;
        proof {
            pre.buf.lemma_len_le_cap();
            assert(new_begin == pre.rngs()[dropped].0);
            assert(new_begin - old_begin <= pre.nlen() - 2);
        }
        let node_count = self.wrap_buf_index(new_begin, old_begin);
        proof {
            assert(new_begin - old_begin < pre.cap());
            assert((new_begin - old_begin) as int % pre.cap() == new_begin - old_begin) by (
            nonlinear_arith)
                requires
                    0 <= new_begin - old_begin < pre.cap(),
            ;
            assert(node_count == new_begin - old_begin);
        }
        let _trimmed = self.buf.truncate_back(node_count);
        proof {
            Self::lemma_truncate_back_wf(pre, *self, dropped);
        }
    }

    /// `increase_key_by_step` against a snapshot's grid, for use while the
    /// track is mid-update.
    fn increase_key_by_step_pre(&self, key: &Key<I>, steps: usize, pre: Ghost<Track<I>>) -> (r:
        Key<I>)
        requires
            pre@.wf(),
            self.step() == pre@.step(),
            Self::d_rep(pre@.step() * steps),
            Self::k_rep(key.key_int() + pre@.step() * steps),
        ensures
            r.key_int() == key.key_int() + pre@.step() * steps,
    {
        let d = self.aligned_step.scale(steps);
        key.add_distance(&d)
    }

    /// After dropping `dropped` leading cells and their nodes, the track is
    /// well-formed again.
    proof fn lemma_truncate_back_wf(pre: Self, post: Self, dropped: int)
        requires
            pre.wf(),
            pre.rlen() >= 2,
            0 <= dropped < pre.rlen(),
            post.buf.inv(),
            post.ranges.inv(),
            !post.buf.spec_reversed(),
            !post.ranges.spec_reversed(),
            post.rngs() == pre.rngs().skip(dropped),
            post.nodes() == pre.nodes().skip(pre.rngs()[dropped].0 - pre.base()),
            post.ks() == pre.ks() + pre.step() * dropped,
            post.ke() == pre.ke(),
            post.ns() == pre.ns(),
            post.step() == pre.step(),
            post.cap() == pre.cap(),
            post.rcap() == pre.rcap(),
        ensures
            post.wf(),
    {
        let s = pre.step();
        let b0 = pre.base();
        let bd = pre.rngs()[dropped].0 as int;
        let l = pre.rlen();
        let l2 = post.rlen();
        pre.lemma_range_counters(dropped);
        pre.lemma_range_counters(l - 1);
        pre.lemma_ranges_step(0, dropped);
        pre.lemma_ranges_step(dropped, l - 1);
        assert(post.base() == bd);
        assert(post.nlen() == pre.nlen() - (bd - b0));
        assert forall|c: int| bd <= c < bd + post.nlen() implies (#[trigger] post.node_at(c))
            == pre.node_at(c) by {
            assert(post.node_at(c) == pre.nodes().skip(bd - b0)[c - bd]);
            assert(pre.nodes().skip(bd - b0)[c - bd] == pre.nodes()[c - b0]);
        }
        assert(post.leading() == post.node_at(bd + post.nlen() - 1));
        assert(pre.leading() == pre.node_at(b0 + pre.nlen() - 1));
        assert forall|j: int| #![trigger post.grid(j)] true implies post.grid(j) == pre.grid(
            dropped + j,
        ) by {
            assert(s * (dropped + j) == s * dropped + s * j) by (nonlinear_arith);
        }
        assert(post.grid(l2) == pre.grid(l));
        assert(s * dropped <= s * (l - 1)) by (nonlinear_arith)
            requires
                s > 0,
                0 <= dropped <= l - 1,
        ;
        assert(pre.grid(dropped) <= pre.grid(l - 1));
        assert(s * l == s * (l - 1) + s) by (nonlinear_arith);
        assert(pre.grid(l - 1) < pre.ke());
        <KeyDistance<I> as TrackKeyDistance>::lemma_dist_rep_zero();
        <KeyDistance<I> as TrackKeyDistance>::lemma_dist_rep_between(
            0,
            post.ke() - post.ks(),
            pre.ke() - pre.ks(),
        );
        assert(s * l2 <= s * l) by (nonlinear_arith)
            requires
                s > 0,
                0 <= l2 <= l,
        ;
        assert(s * l2 >= 0) by (nonlinear_arith)
            requires
                s > 0,
                l2 >= 0,
        ;
        <KeyDistance<I> as TrackKeyDistance>::lemma_dist_rep_between(0, s * l2, s * l);
        assert(post.leading() == pre.leading());
        assert forall|i: int| 0 <= i < l2 implies post.range_ok(i) by {
            assert(pre.range_ok(dropped + i));
            pre.lemma_range_counters(dropped + i);
            pre.lemma_ranges_step(dropped, dropped + i);
            assert(post.rngs()[i] == pre.rngs()[dropped + i]);
            assert(post.grid(i) == pre.grid(dropped + i));
            assert(post.grid(i + 1) == pre.grid(dropped + i + 1));
        }
        assert(post.rngs()[l2 - 1] == pre.rngs()[l - 1]);
        if post.leading() is NotAligned {
            assert(post.grid(l2 - 1) == pre.grid(l - 1));
        }
    }

    /// Properties of the recursive scan `blo`: it lands inside the range, on
    /// a virtual key at most `k`, and everything above it up to `c` is
    /// greater than `k`.
    proof fn lemma_blo_props(&self, i: int, c: int, k: int)
        requires
            0 <= i,
            self.rngs()[i].0 <= c,
            self.grid(i) <= k,
        ensures
            ({
                let lo = self.blo(i, c, k);
                &&& self.rngs()[i].0 <= lo <= c
                &&& self.vkey(i, lo) <= k
                &&& forall|j: int| lo < j <= c ==> #[trigger] self.vkey(i, j) > k
            }),
        decreases c - self.rngs()[i].0,
    {
        let b = self.rngs()[i].0 as int;
        if c > b {
            if self.vkey(i, c) <= k {
            } else {
                self.lemma_blo_props(i, c - 1, k);
            }
        }
    }

    /// The position of the last range a cancel at `k` keeps an entry for
    /// before empty-range cleanup, for `key_start < k <= key_end`.
    pub open spec fn cancel_ri(&self, k: int) -> int {
        if k == self.ke() {
            self.rlen() - 1
        } else {
            let c = self.cell_of(k);
            if k == self.grid(c) {
                c - 1
            } else {
                c
            }
        }
    }

    /// The counter of the last node a cancel at `k` keeps, for
    /// `key_start < k <= key_end`. At `key_end` exactly the leading node
    /// goes; otherwise everything past `k` goes, and a node exactly at `k`
    /// goes with it.
    pub open spec fn cancel_cut(&self, k: int) -> int {
        if k == self.ke() {
            self.base() + self.nlen() - 2
        } else {
            let c = self.cell_of(k);
            let lo = self.blo(c, self.rngs()[c].1 - 1, k);
            if self.vkey(c, lo) == k {
                lo - 1
            } else {
                lo
            }
        }
    }

    /// The range table after a cancel at `k`: ranges past the cut's range go,
    /// the cut's range ends at the cut, and it is dropped entirely when that
    /// leaves it empty.
    pub open spec fn cancel_rngs(&self, k: int) -> Seq<TrackRange> {
        let ri = self.cancel_ri(k);
        let cut = self.cancel_cut(k);
        if self.rngs()[ri].0 == cut {
            self.rngs().take(ri)
        } else {
            self.rngs().take(ri + 1).update(ri, (self.rngs()[ri].0, cut as usize))
        }
    }

    /// `key_end` after a cancel at `k`: the new leading node's grid key if it
    /// is aligned, else its own key.
    pub open spec fn cancel_ke(&self, k: int) -> int {
        let cut = self.cancel_cut(k);
        if self.node_at(cut) is Aligned {
            self.ks() + self.step() * self.cancel_rngs(k).len()
        } else {
            Self::na_key(self.node_at(cut))
        }
    }

    /// `next_step` after a cancel at `k`: the full step if the new leading
    /// node is aligned, else the distance from it to its cell's far edge.
    pub open spec fn cancel_ns(&self, k: int) -> int {
        let cut = self.cancel_cut(k);
        if self.node_at(cut) is Aligned {
            self.step()
        } else {
            self.ks() + self.step() * self.cancel_rngs(k).len() - Self::na_key(self.node_at(cut))
        }
    }

    /// Where a cancel at `k` cuts: inside which range the last survivor lies,
    /// that it is aligned exactly when it is the range's begin, and the key
    /// bounds it obeys when it is not.
    proof fn lemma_cancel_cut_cases(pre: Self, k: int)
        requires
            pre.wf(),
            pre.ks() < k <= pre.ke(),
            pre.nlen() >= 1,
        ensures
            ({
                let ri = pre.cancel_ri(k);
                let cut = pre.cancel_cut(k);
                &&& 0 <= ri < pre.rlen()
                &&& pre.rngs()[ri].0 <= cut < pre.rngs()[ri].1
                &&& ((pre.node_at(cut) is Aligned) <==> cut == pre.rngs()[ri].0)
                &&& (pre.node_at(cut) is NotAligned ==> {
                    &&& pre.grid(ri) < Self::na_key(pre.node_at(cut)) <= pre.grid(ri + 1)
                    &&& Self::na_key(pre.node_at(cut)) <= pre.ke()
                    &&& forall|c2: int|
                        pre.rngs()[ri].0 < c2 < cut ==> Self::na_key(#[trigger] pre.node_at(c2))
                            <= Self::na_key(pre.node_at(cut))
                })
                &&& (cut == pre.rngs()[ri].0 ==> pre.grid(ri) <= pre.ke())
            }),
    {
        let l = pre.rlen();
        assert(l >= 1);
        if k == pre.ke() {
            let ri = l - 1;
            assert(pre.range_ok(ri));
            pre.lemma_range_counters(ri);
            let cut = pre.base() + pre.nlen() - 2;
            assert(cut == pre.rngs()[ri].1 - 1);
            assert(pre.step() * l == pre.step() * (l - 1) + pre.step()) by (nonlinear_arith);
            if cut > pre.rngs()[ri].0 {
                assert(pre.node_at(cut) is NotAligned);
                if pre.leading() is NotAligned {
                    assert(Self::na_key(pre.node_at(cut)) <= pre.ke());
                } else {
                    assert(Self::na_key(pre.node_at(cut)) <= pre.grid(ri + 1));
                }
            }
        } else {
            pre.lemma_cell_bounds(k);
            let c = pre.cell_of(k);
            let ri = pre.cancel_ri(k);
            assert(pre.range_ok(c));
            pre.lemma_range_counters(c);
            pre.lemma_blo_props(c, pre.rngs()[c].1 - 1, k);
            let lo = pre.blo(c, pre.rngs()[c].1 - 1, k);
            assert(pre.step() * (c + 1) == pre.step() * c + pre.step()) by (nonlinear_arith);
            if c >= 1 {
                assert(pre.range_ok(c - 1));
                pre.lemma_range_counters(c - 1);
                assert(pre.step() * c == pre.step() * (c - 1) + pre.step()) by (nonlinear_arith);
            }
            if c < l - 1 {
                pre.lemma_ranges_step(c, l - 1);
                assert(pre.step() * (l - 1) >= pre.step() * (c + 1)) by (nonlinear_arith)
                    requires
                        pre.step() > 0,
                        c + 1 <= l - 1,
                ;
                assert(pre.step() * l == pre.step() * (l - 1) + pre.step()) by (nonlinear_arith);
                assert(pre.grid(c + 1) <= pre.grid(l - 1));
                assert(pre.grid(l - 1) < pre.ke());
            } else {
                assert(c == l - 1);
            }
            if pre.vkey(c, lo) == k {
                if lo == pre.rngs()[c].0 {
                    assert(k == pre.grid(c));
                    assert(pre.step() * c > 0 ==> c > 0) by (nonlinear_arith)
                        requires
                            pre.step() > 0,
                            c >= 0,
                    ;
                    assert(ri == c - 1);
                    assert(pre.rngs()[ri].1 == pre.rngs()[c].0);
                } else {
                    assert(pre.node_at(lo) is NotAligned);
                    assert(Self::na_key(pre.node_at(lo)) > pre.grid(c));
                    assert(k != pre.grid(c));
                    assert(ri == c);
                }
            } else {
                assert(pre.vkey(c, lo) < k);
                if k == pre.grid(c) {
                    assert(pre.vkey(c, pre.rngs()[c].0 as int) == k);
                    assert(lo == pre.rngs()[c].0);
                    assert(false);
                }
                assert(ri == c);
            }
        }
    }

    /// When the node a cancel at `k` cuts to is not aligned, its key lies
    /// within one step below the next grid boundary of the shortened track.
    proof fn lemma_cancel_na_bounds(pre: Self, k: int, l2: int)
        requires
            pre.wf(),
            pre.ks() < k <= pre.ke(),
            pre.nlen() >= 1,
            l2 == pre.cancel_rngs(k).len(),
            pre.node_at(pre.cancel_cut(k)) is NotAligned,
        ensures
            0 <= pre.ks() + pre.step() * l2 - Self::na_key(pre.node_at(pre.cancel_cut(k)))
                <= pre.step(),
            Self::k_rep(Self::na_key(pre.node_at(pre.cancel_cut(k)))),
    {
        Self::lemma_cancel_cut_cases(pre, k);
        let ri = pre.cancel_ri(k);
        let cut = pre.cancel_cut(k);
        assert(cut != pre.rngs()[ri].0);
        assert(l2 == ri + 1);
        assert(pre.step() * (ri + 1) == pre.step() * ri + pre.step()) by (nonlinear_arith);
        let na = Self::na_key(pre.node_at(cut));
        pre.key_start.lemma_key_rep_val();
        pre.key_end.lemma_key_rep_val();
        <Key<I> as TrackKey>::lemma_key_rep_between(pre.ks(), na, pre.ke());
    }

    /// After a cancel at `k` rewrites the buffers and keys as the `cancel_*`
    /// functions describe, the track is well-formed again.
    proof fn lemma_cancel_wf(pre: Self, post: Self, k: int)
        requires
            pre.wf(),
            pre.ks() < k <= pre.ke(),
            pre.nlen() >= 1,
            post.buf.inv(),
            post.ranges.inv(),
            !post.buf.spec_reversed(),
            !post.ranges.spec_reversed(),
            post.nodes() == pre.nodes().take(pre.cancel_cut(k) - pre.base() + 1),
            post.rngs() == pre.cancel_rngs(k),
            post.ks() == pre.ks(),
            post.step() == pre.step(),
            post.cap() == pre.cap(),
            post.rcap() == pre.rcap(),
            post.ke() == pre.cancel_ke(k),
            post.ns() == pre.cancel_ns(k),
        ensures
            post.wf(),
    {
        Self::lemma_cancel_cut_cases(pre, k);
        let l = pre.rlen();
        let b0 = pre.base();
        let ri = pre.cancel_ri(k);
        let cut = pre.cancel_cut(k);
        let s = pre.step();
        let l2 = post.rlen();
        pre.lemma_range_counters(ri);
        pre.lemma_ranges_step(0, ri);
        assert(post.nlen() == cut - b0 + 1);
        if l2 > 0 {
            if cut == pre.rngs()[ri].0 {
                assert(post.rngs()[0] == pre.rngs()[0]);
            } else {
                if ri == 0 {
                    assert(post.rngs()[0].0 == pre.rngs()[0].0);
                } else {
                    assert(post.rngs()[0] == pre.rngs()[0]);
                }
            }
            assert(post.base() == b0);
        }
        assert forall|c: int| b0 <= c <= cut && l2 > 0 implies (#[trigger] post.node_at(c))
            == pre.node_at(c) by {
            assert(post.base() == b0);
            assert(post.nodes()[c - b0] == pre.nodes()[c - b0]);
        }
        <KeyDistance<I> as TrackKeyDistance>::lemma_dist_rep_zero();
        assert(s * (ri + 1) == s * ri + s) by (nonlinear_arith);
        assert(0 <= s * ri && s * ri + s <= s * l) by (nonlinear_arith)
            requires
                s > 0,
                0 <= ri < l,
        ;
        <KeyDistance<I> as TrackKeyDistance>::lemma_dist_rep_between(0, s * ri, s * l);
        <KeyDistance<I> as TrackKeyDistance>::lemma_dist_rep_between(0, s * (ri + 1), s * l);
        pre.key_start.lemma_key_rep_val();
        pre.key_end.lemma_key_rep_val();
        if cut == pre.rngs()[ri].0 {
            // the cut range became empty and was dropped
            assert(post.rngs() =~= pre.rngs().take(ri));
            assert(l2 == ri);
            assert(post.ke() == pre.ks() + s * ri);
            assert(post.ns() == s);
            assert(pre.grid(ri) <= pre.ke());
            <KeyDistance<I> as TrackKeyDistance>::lemma_dist_rep_between(
                0,
                post.ke() - post.ks(),
                pre.ke() - pre.ks(),
            );
            <Key<I> as TrackKey>::lemma_key_rep_between(
                pre.ks(),
                pre.ks() + s * ri,
                pre.grid(pre.rlen()),
            );
            if ri == 0 {
                assert(post.nlen() == 1);
                assert(post.nodes()[0] == pre.nodes()[cut - b0]);
                assert(post.nodes()[0] == pre.node_at(cut));
                assert(post.nodes()[0] is Aligned);
                assert(s * 0 == 0);
            } else {
                assert(pre.rngs()[ri - 1].1 == pre.rngs()[ri].0);
                pre.lemma_range_counters(ri - 1);
                assert(post.rngs()[l2 - 1].1 == b0 + post.nlen() - 1);
                assert forall|i: int| 0 <= i < l2 implies post.range_ok(i) by {
                    assert(pre.range_ok(i));
                    pre.lemma_range_counters(i);
                    pre.lemma_ranges_step(i, ri - 1);
                }
                assert(post.leading() == pre.node_at(cut));
                assert(post.leading() is Aligned);
                assert(post.ke() == post.grid(l2));
            }
        } else {
            // the cut range survives, ending at the cut
            assert(post.rngs() =~= pre.rngs().take(ri + 1).update(
                ri,
                (pre.rngs()[ri].0, cut as usize),
            ));
            assert(l2 == ri + 1);
            assert(post.leading() == pre.node_at(cut));
            assert(post.leading() is NotAligned);
            let na = Self::na_key(pre.node_at(cut));
            assert(post.ke() == na);
            assert(post.ns() == pre.ks() + s * l2 - na);
            assert(pre.grid(ri) < na <= pre.grid(ri + 1));
            assert(na <= pre.ke());
            assert(0 <= post.ns() <= s);
            <KeyDistance<I> as TrackKeyDistance>::lemma_dist_rep_between(0, post.ns(), s);
            <KeyDistance<I> as TrackKeyDistance>::lemma_dist_rep_between(
                0,
                post.ke() - post.ks(),
                pre.ke() - pre.ks(),
            );
            <Key<I> as TrackKey>::lemma_key_rep_between(
                pre.ks(),
                pre.ks() + s * l2,
                pre.grid(pre.rlen()),
            );
            assert(post.rngs()[l2 - 1].1 == b0 + post.nlen() - 1);
            assert forall|i: int| 0 <= i < l2 implies post.range_ok(i) by {
                assert(pre.range_ok(i));
                pre.lemma_range_counters(i);
                if i < ri {
                    pre.lemma_ranges_step(i, ri);
                    assert(post.rngs()[i] == pre.rngs()[i]);
                } else {
                    assert(post.rngs()[i].0 == pre.rngs()[ri].0);
                    assert(post.rngs()[i].1 == cut);
                }
            }
            assert forall|c2: int|
                post.rngs()[l2 - 1].0 < c2 < post.rngs()[l2 - 1].1 implies Self::na_key(
                #[trigger] post.node_at(c2)) <= post.ke() by {
                assert(pre.range_ok(ri));
                assert(post.node_at(c2) == pre.node_at(c2));
                assert(pre.node_at(c2) is NotAligned);
            }
        }
    }

    /// Trims the leading edge so that every remaining node has key at most
    /// `key` (a node exactly at `key` survives only when `key == key_end`),
    /// rolling `key_end` back accordingly. Keys at or before `key_start`
    /// reset the track to the default key; keys past `key_end` do nothing.
    /// Returns the removed nodes in buffer order.
    #[verifier::rlimit(100)]
    pub fn cancel_forward(&mut self, key: &Key<I>) -> (r: Truncated<Node<I>>)
        requires
            old(self).wf(),
        ensures
            final(self).wf(),
            final(self).step() == old(self).step(),
            final(self).cap() == old(self).cap(),
            final(self).rcap() == old(self).rcap(),
            final(self).interp() == old(self).interp(),
            if key.key_int() <= old(self).ks() {
                &&& final(self).nlen() == 0
                &&& final(self).rlen() == 0
                &&& final(self).ks() == 0
                &&& final(self).ke() == 0
                &&& final(self).ns() == old(self).step()
                &&& r@ == old(self).nodes()
            } else if key.key_int() > old(self).ke() || old(self).nlen() == 0 {
                &&& final(self).nodes() == old(self).nodes()
                &&& final(self).rngs() == old(self).rngs()
                &&& final(self).ks() == old(self).ks()
                &&& final(self).ke() == old(self).ke()
                &&& final(self).ns() == old(self).ns()
                &&& r@ == Seq::<Node<I>>::empty()
            } else {
                let pre = *old(self);
                let k = key.key_int();
                let cut = pre.cancel_cut(k);
                &&& final(self).nodes() == pre.nodes().take(cut - pre.base() + 1)
                &&& r@ == pre.nodes().skip(cut - pre.base() + 1)
                &&& final(self).rngs() == pre.cancel_rngs(k)
                &&& final(self).ks() == pre.ks()
                &&& final(self).ke() == pre.cancel_ke(k)
                &&& final(self).ns() == pre.cancel_ns(k)
            },
    {
        if key.key_le(&self.key_start) {
            return self.reset_track(Key::<I>::key_default());
        }
        if self.key_end.key_lt(key) || self.buf.is_empty() {
            return Truncated::empty();
        }
        let ghost pre = *old(self);
        let ghost k = key.key_int();
        let base = self.base_idx();
        let index: usize;
        if key.key_eq(&self.key_end) {
            proof {
                pre.lemma_range_counters(pre.rlen() - 1);
            }
            let last_pos = self.ranges.len() - 1;
            let lastr = *self.ranges.get(last_pos);
            index = lastr.1 - 1;
            self.ranges.set(last_pos, (lastr.0, index));
            proof {
                assert(index == pre.cancel_cut(k));
                assert(self.rngs() =~= pre.rngs().update(
                    pre.rlen() - 1,
                    (pre.rngs()[pre.rlen() - 1].0, index),
                ));
            }
        } else {
            proof {
                self.lemma_cell_bounds(k);
                pre.lemma_range_counters(pre.cell_of(k));
                if pre.cell_of(k) >= 1 {
                    pre.lemma_range_counters(pre.cell_of(k) - 1);
                }
            }
            let mut range_index = self.range_index(key);
            let nearby = self.find_nearby_nodes_in_range(range_index, key);
            let ghost c = range_index as int;
            let mut node_index = nearby.begin_index;
            if key.key_eq(&nearby.begin_key) {
                proof {
                    if node_index == pre.rngs()[c].0 {
                        assert(k == pre.grid(c));
                        assert(pre.step() * c > 0 ==> c > 0) by (nonlinear_arith)
                            requires
                                pre.step() > 0,
                                c >= 0,
                        ;
                        assert(c >= 1);
                    }
                }
                node_index = node_index - 1;
            }
            index = node_index;
            let boundary = self.range_index_to_key(range_index);
            if key.key_eq(&boundary) {
                proof {
                    assert(pre.step() * c > 0 ==> c > 0) by (nonlinear_arith)
                        requires
                            pre.step() > 0,
                            c >= 0,
                    ;
                }
                range_index = range_index - 1;
            }
            let _trimmed_ranges = self.ranges.truncate_forward(range_index);
            let last_pos = self.ranges.len() - 1;
            let lastr = *self.ranges.get(last_pos);
            self.ranges.set(last_pos, (lastr.0, index));
            proof {
                assert(index == pre.cancel_cut(k));
                assert(range_index as int == pre.cancel_ri(k));
                assert(self.rngs() =~= pre.rngs().take(range_index + 1).update(
                    range_index as int,
                    (pre.rngs()[range_index as int].0, index),
                ));
            }
        }
        let ghost ri2 = pre.cancel_ri(k);
        let ghost cut = pre.cancel_cut(k);
        let last_pos = self.ranges.len() - 1;
        let lastr = *self.ranges.get(last_pos);
        if lastr.0 == lastr.1 {
            if self.ranges.len() > 1 {
                let _dropped_ranges = self.ranges.truncate_forward(last_pos - 1);
            } else {
                let _cleared_ranges = self.ranges.clear();
            }
        }
        proof {
            assert(self.rngs() =~= pre.cancel_rngs(k));
        }
        let is_aligned: bool;
        let mut na_cut_key: Option<Key<I>> = None;
        match self.buf.get(index - base) {
            TrackNode::Aligned(_) => {
                is_aligned = true;
            },
            TrackNode::NotAligned(n) => {
                is_aligned = false;
                na_cut_key = Some(n.key.dup());
            },
        }
        proof {
            pre.lemma_grid_rep(self.rlen());
            assert(self.grid(self.rlen()) == pre.grid(self.rlen()));
        }
        if is_aligned {
            self.next_step = self.aligned_step.dup();
            let new_ke = self.increase_key_by_step_pre(
                &self.key_start,
                self.ranges.len(),
                Ghost(pre),
            );
            self.key_end = new_ke;
        } else {
            let lk = match na_cut_key {
                Some(x) => x,
                None => {
                    proof {
                        assert(false);
                    }
                    Key::<I>::key_default()
                },
            };
            let boundary = self.increase_key_by_step_pre(
                &self.key_start,
                self.ranges.len(),
                Ghost(pre),
            );
            proof {
                Self::lemma_cancel_na_bounds(pre, k, self.rlen());
                <KeyDistance<I> as TrackKeyDistance>::lemma_dist_rep_zero();
                <KeyDistance<I> as TrackKeyDistance>::lemma_dist_rep_between(
                    0,
                    boundary.key_int() - lk.key_int(),
                    pre.step(),
                );
            }
            let d = lk.distance(&boundary);
            self.key_end = lk;
            self.next_step = d;
        }
        let removed = self.buf.truncate_forward(index - base);
        proof {
            Self::lemma_cancel_wf(pre, *self, k);
        }
        removed
    }

    /// A cancel at a key strictly inside the span rolls the leading edge back
    /// to at most that key, and the key stays within one `next_step` of the
    /// new edge.
    proof fn lemma_cancel_keys(pre: Self, k: int)
        requires
            pre.wf(),
            pre.ks() < k < pre.ke(),
        ensures
            pre.ks() <= pre.cancel_ke(k) <= k,
            k <= pre.cancel_ke(k) + pre.cancel_ns(k),
            pre.cancel_ke(k) + pre.cancel_ns(k) == pre.ks() + pre.step() * (pre.cancel_ri(k) + 1),
            pre.cancel_rngs(k).len() <= pre.cancel_ri(k) + 1,
            pre.node_at(pre.cancel_cut(k)) is Aligned ==> pre.cancel_ke(k) < k,
    {
        Self::lemma_cancel_cut_cases(pre, k);
        pre.lemma_cell_bounds(k);
        let ri = pre.cancel_ri(k);
        let cut = pre.cancel_cut(k);
        let c = pre.cell_of(k);
        let s = pre.step();
        assert(s * (ri + 1) == s * ri + s) by (nonlinear_arith);
        assert(s * (c + 1) == s * c + s) by (nonlinear_arith);
        if c >= 1 {
            assert(s * c == s * (c - 1) + s) by (nonlinear_arith);
        }
        assert(pre.range_ok(c));
        pre.lemma_blo_props(c, pre.rngs()[c].1 - 1, k);
        let lo = pre.blo(c, pre.rngs()[c].1 - 1, k);
        if cut == pre.rngs()[ri].0 {
            assert(pre.cancel_ke(k) == pre.ks() + s * ri);
            if ri == c {
                assert(pre.vkey(c, lo) <= k);
                assert(k != pre.grid(c));
                assert(pre.cancel_ke(k) < k);
            } else {
                assert(ri == c - 1);
                assert(k == pre.grid(c));
                assert(pre.cancel_ke(k) < k);
            }
        } else {
            assert(pre.node_at(cut) is NotAligned);
            if pre.vkey(c, lo) == k {
                if lo == pre.rngs()[c].0 {
                    assert(ri == c - 1);
                    assert(cut == pre.rngs()[ri].1 - 1);
                    assert(pre.range_ok(ri));
                    assert(Self::na_key(pre.node_at(cut)) <= pre.grid(ri + 1));
                } else {
                    assert(cut == lo - 1);
                    assert(pre.node_at(lo) is NotAligned);
                    assert(Self::na_key(pre.node_at(cut)) <= Self::na_key(pre.node_at(lo)));
                }
            } else {
                assert(cut == lo);
            }
        }
    }

    /// What a successful `insert_not_aligned` at `key` leaves behind, given
    /// the state `mid` that the internal cancel produced: the new not-aligned
    /// node is pushed, the leading edge moves to `key`, and `next_step`
    /// shrinks by the distance moved.
    pub open spec fn insert_step(mid: Self, post: Self, nn: Node<I>) -> bool {
        &&& post.ks() == mid.ks()
        &&& post.ke() == Self::na_key(nn)
        &&& post.ns() == mid.ns() - (Self::na_key(nn) - mid.ke())
        &&& if mid.rlen() == 0 {
            &&& post.nodes() == mid.nodes().push(nn)
            &&& post.rngs() == seq![(0usize, 1usize)]
            &&& post.cap() == mid.cap()
        } else {
            Self::push_step(mid, post, nn)
        }
    }

    /// The anchor of an insert at `k`: the first node the internal cancel
    /// removes.
    pub open spec fn insert_anchor(pre: Self, k: int) -> Node<I> {
        pre.node_at(pre.cancel_cut(k) + 1)
    }

    /// The key recorded as cancelled by an insert at `k`: the grid key the
    /// anchor occupied if it was aligned, else the anchor's own key.
    pub open spec fn insert_ckey_int(pre: Self, k: int) -> int {
        if Self::insert_anchor(pre, k) is Aligned {
            pre.cancel_ke(k) + pre.cancel_ns(k)
        } else {
            Self::na_key(Self::insert_anchor(pre, k))
        }
    }

    /// Pushing a not-aligned node whose key sits between the leading edge and
    /// the next aligned key preserves the invariant.
    proof fn lemma_insert_wf(mid: Self, post: Self, nn: Node<I>)
        requires
            mid.wf(),
            mid.nlen() > 0,
            nn is NotAligned,
            mid.ke() <= Self::na_key(nn) <= mid.ke() + mid.ns(),
            (mid.rlen() == 0 || mid.leading() is Aligned) ==> mid.ke() < Self::na_key(nn),
            Self::k_rep(Self::na_key(nn)),
            Self::k_rep(mid.ke() + mid.ns()),
            Self::d_rep(mid.ke() + mid.ns() - mid.ks()),
            mid.rlen() > 0 ==> mid.last_end() < usize::MAX,
            Self::insert_step(mid, post, nn),
            post.buf.inv(),
            post.ranges.inv(),
            !post.buf.spec_reversed(),
            !post.ranges.spec_reversed(),
            post.step() == mid.step(),
            post.rcap() == mid.rcap(),
            post.cap() >= mid.cap(),
            post.rlen() <= post.rcap(),
        ensures
            post.wf(),
    {
        let l = mid.rlen();
        let s = mid.step();
        let nk = Self::na_key(nn);
        <KeyDistance<I> as TrackKeyDistance>::lemma_dist_rep_zero();
        <KeyDistance<I> as TrackKeyDistance>::lemma_dist_rep_between(0, post.ns(), s);
        <KeyDistance<I> as TrackKeyDistance>::lemma_dist_rep_between(
            0,
            post.ke() - post.ks(),
            mid.ke() + mid.ns() - mid.ks(),
        );
        assert(s * 1 == s) by (nonlinear_arith);
        assert(s * 0 == 0) by (nonlinear_arith);
        mid.key_start.lemma_key_rep_val();
        if l == 0 {
            assert(post.rlen() == 1);
            assert(post.grid(1) == post.ks() + post.step());
            assert(post.grid(0) == post.ks());
            assert(mid.ke() + mid.ns() == mid.grid(1));
            assert(post.range_ok(0));
        } else {
            assert(mid.range_ok(l - 1));
            mid.lemma_range_counters(l - 1);
            if mid.leading() is Aligned {
                assert(mid.ke() == mid.grid(l));
                assert(post.rlen() == l + 1);
                assert(s * (l + 1) == s * l + s) by (nonlinear_arith);
                assert(mid.ke() + mid.ns() == mid.grid(l + 1));
                assert(post.base() == mid.base());
                assert(post.grid(l) == mid.grid(l));
                assert(post.grid(l + 1) == mid.grid(l + 1));
                assert forall|i: int| 0 <= i < post.rlen() implies post.range_ok(i) by {
                    if i < l {
                        assert(mid.range_ok(i));
                        mid.lemma_range_counters(i);
                        assert forall|c: int|
                            post.rngs()[i].0 < c < post.rngs()[i].1 implies post.node_at(c)
                            == mid.node_at(c) by {}
                    } else {
                        assert(post.rngs()[i].0 == mid.last_end());
                        assert(post.node_at(mid.last_end() as int) == mid.leading());
                    }
                }
            } else {
                assert(post.rlen() == l);
                assert(post.base() == mid.base());
                assert(mid.ke() + mid.ns() == mid.grid(l));
                assert(post.grid(l - 1) == mid.grid(l - 1));
                assert(post.grid(l) == mid.grid(l));
                assert forall|i: int| 0 <= i < post.rlen() implies post.range_ok(i) by {
                    mid.lemma_range_counters(i);
                    assert(mid.range_ok(i));
                    if i < l - 1 {
                        mid.lemma_ranges_step(i, l - 1);
                        assert forall|c: int|
                            post.rngs()[i].0 < c < post.rngs()[i].1 implies post.node_at(c)
                            == mid.node_at(c) by {}
                    } else {
                        assert forall|c: int|
                            post.rngs()[i].0 < c < post.rngs()[i].1 - 1 implies post.node_at(c)
                            == mid.node_at(c) by {}
                        assert(post.node_at(post.rngs()[i].1 - 1) == mid.leading());
                    }
                }
                assert forall|c: int|
                    post.rngs()[l - 1].0 < c < post.rngs()[l - 1].1 implies Self::na_key(
                    #[trigger] post.node_at(c)) <= post.ke() by {
                    if c < post.rngs()[l - 1].1 - 1 {
                        assert(post.node_at(c) == mid.node_at(c));
                    } else {
                        assert(post.node_at(c) == mid.leading());
                    }
                }
            }
        }
    }

    /// Replaces the pending aligned sample, and any samples at or past `key`,
    /// with a not-aligned sample at `key`. The removed nodes are returned in
    /// buffer order; the first of them is the *anchor*, whose payload and key
    /// are recorded in the new node so a later cancel can restore it. Fails
    /// with `KeyIsNotInInnerRange` exactly when `key` is not strictly inside
    /// `(key_start, key_end)`, leaving the track unchanged.
    pub fn insert_not_aligned(&mut self, key: Key<I>, node: NotAlignedData<I>) -> (r:
        core::result::Result<Truncated<Node<I>>, Error>)
        requires
            old(self).wf(),
        ensures
            final(self).wf(),
            final(self).step() == old(self).step(),
            final(self).rcap() == old(self).rcap(),
            final(self).ks() == old(self).ks(),
            final(self).interp() == old(self).interp(),
            (r is Err) == !(old(self).ks() < key.key_int() < old(self).ke()),
            match r {
                Err(e) => {
                    &&& e == Error::KeyIsNotInInnerRange
                    &&& final(self).nodes() == old(self).nodes()
                    &&& final(self).rngs() == old(self).rngs()
                    &&& final(self).ke() == old(self).ke()
                    &&& final(self).ns() == old(self).ns()
                    &&& final(self).cap() == old(self).cap()
                },
                Ok(t) => {
                    let pre = *old(self);
                    let k = key.key_int();
                    let cut = pre.cancel_cut(k);
                    &&& t@ == pre.nodes().skip(cut - pre.base() + 1)
                    &&& t@.len() >= 1
                    &&& exists|ck: Key<I>|
                        #![auto]
                        {
                            &&& ck.key_int() == Self::insert_ckey_int(pre, k)
                            &&& final(self).nodes() == pre.nodes().take(cut - pre.base() + 1).push(
                                TrackNode::NotAligned(
                                    crate::node::NotAlignedNode {
                                        node: node,
                                        key: key,
                                        canceled_node: Self::insert_anchor(pre, k).payload_of(),
                                        canceled_key: ck,
                                    },
                                ),
                            )
                        }
                    &&& final(self).rngs() == (if pre.cancel_rngs(k).len() == 0 {
                        seq![(0usize, 1usize)]
                    } else if pre.node_at(cut) is Aligned {
                        pre.cancel_rngs(k).push(((cut as usize), (cut + 1) as usize))
                    } else {
                        pre.cancel_rngs(k).update(
                            pre.cancel_rngs(k).len() - 1,
                            (pre.cancel_rngs(k)[pre.cancel_rngs(k).len() - 1].0, (cut + 1) as usize),
                        )
                    })
                    &&& final(self).ke() == k
                    &&& final(self).ns() == pre.cancel_ns(k) - (k - pre.cancel_ke(k))
                },
            },
    {
        if !self.is_key_in_inner_range(&key) {
            return Err(Error::KeyIsNotInInnerRange);
        }
        let ghost pre = *old(self);
        let ghost k = key.key_int();
        proof {
            Self::lemma_cancel_cut_cases(pre, k);
            Self::lemma_cancel_keys(pre, k);
            pre.lemma_range_counters(pre.cancel_ri(k));
        }
        let canceled = self.cancel_forward(&key);
        let ghost mid = *self;
        let ghost cut = pre.cancel_cut(k);
        proof {
            assert(canceled@.len() >= 1);
            assert(canceled@[0] == pre.node_at(cut + 1));
            assert(mid.ke() + mid.ns() == pre.ks() + pre.step() * (pre.cancel_ri(k) + 1));
            pre.lemma_grid_rep(pre.cancel_ri(k) + 1);
        }
        let anchor_aligned: bool;
        let anchor_payload: Data<I>;
        let mut anchor_key: Option<Key<I>> = None;
        match canceled.peek_first() {
            Some(a) => {
                match a {
                    TrackNode::Aligned(dd) => {
                        anchor_aligned = true;
                        anchor_payload = dd.dup();
                    },
                    TrackNode::NotAligned(na) => {
                        anchor_aligned = false;
                        anchor_payload = na.node.payload().dup();
                        anchor_key = Some(na.key.dup());
                    },
                }
            },
            None => {
                proof {
                    assert(false);
                }
                return Err(Error::KeyIsNotInInnerRange);
            },
        }
        let canceled_key = if anchor_aligned {
            self.key_end.add_distance(&self.next_step)
        } else {
            match anchor_key {
                Some(x) => x,
                None => {
                    proof {
                        assert(false);
                    }
                    Key::<I>::key_default()
                },
            }
        };
        proof {
            assert(canceled_key.key_int() == Self::insert_ckey_int(pre, k));
        }
        let node_key = key.dup();
        let na_node = crate::node::NotAlignedNode {
            node,
            key,
            canceled_node: anchor_payload,
            canceled_key,
        };
        let ghost nn = TrackNode::NotAligned(na_node);
        if self.ranges.is_empty() {
            match self.buf.try_push(TrackNode::NotAligned(na_node)) {
                Ok(()) => {},
                Err(_) => {
                    proof {
                        assert(false);
                    }
                },
            }
            match self.ranges.try_push((0, 1)) {
                Ok(()) => {},
                Err(_) => {
                    proof {
                        assert(false);
                    }
                },
            }
            proof {
                assert(self.rngs() =~= seq![(0usize, 1usize)]);
            }
        } else {
            proof {
                mid.buf.lemma_len_le_cap();
                assert(mid.nlen() <= pre.nlen() - 1);
                pre.buf.lemma_len_le_cap();
                assert(mid.nlen() < mid.cap());
                if mid.leading() is Aligned {
                    assert(mid.rlen() == pre.cancel_ri(k));
                    assert(mid.rlen() < pre.rlen());
                    assert(mid.rlen() < mid.rcap());
                }
                assert(!Self::push_blocked(mid));
                assert(mid.last_end() == cut);
                assert(cut < pre.base() + pre.nlen() - 1 <= usize::MAX);
            }
            match self.push_helper(TrackNode::NotAligned(na_node)) {
                Ok(()) => {},
                Err(_) => {
                    proof {
                        assert(false);
                    }
                },
            }
        }
        proof {
            <KeyDistance<I> as TrackKeyDistance>::lemma_dist_rep_zero();
            <KeyDistance<I> as TrackKeyDistance>::lemma_dist_rep_between(
                0,
                k - mid.ke(),
                mid.ns(),
            );
            <KeyDistance<I> as TrackKeyDistance>::lemma_dist_rep_between(
                0,
                mid.ns() - (k - mid.ke()),
                mid.ns(),
            );
        }
        let kd = self.key_end.distance(&node_key);
        let ns2 = self.next_step.sub(&kd);
        self.next_step = ns2;
        self.key_end = node_key;
        proof {
            assert(Self::na_key(nn) == k);
            key.lemma_key_rep_val();
            assert(Self::k_rep(mid.ke() + mid.ns()));
            assert(Self::d_rep(mid.ke() + mid.ns() - mid.ks()));
            if mid.rlen() > 0 {
                assert(mid.rngs()[mid.rlen() - 1].1 == cut);
                assert(cut < pre.rngs()[pre.cancel_ri(k)].1 <= usize::MAX);
            }
            assert(mid.leading() == pre.node_at(cut));
            assert((mid.rlen() == 0 || mid.leading() is Aligned) ==> mid.ke() < k);
            Self::lemma_insert_wf(mid, *self, nn);
        }
        Ok(canceled)
    }

    /// What `reset_track` leaves behind: an empty track re-anchored at the
    /// new key, with its step and capacities untouched.
    pub open spec fn reset_post(pre: Self, post: Self, k0: Key<I>) -> bool {
        &&& post.nlen() == 0
        &&& post.rlen() == 0
        &&& post.ks() == k0.key_int()
        &&& post.ke() == k0.key_int()
        &&& post.ns() == pre.step()
        &&& post.step() == pre.step()
        &&& post.cap() == pre.cap()
        &&& post.rcap() == pre.rcap()
    }

    /// The oldest key never passes the leading edge.
    pub proof fn lemma_invariant_key_order(&self)
        requires
            self.wf(),
        ensures
            self.ks() <= self.ke(),
            self.rlen() > 0 ==> self.ks() < self.ke(),
    {
        let l = self.rlen();
        let s = self.step();
        if l > 0 {
            assert(s * l >= s * 1 > 0) by (nonlinear_arith)
                requires
                    s > 0,
                    l >= 1,
            ;
            assert(s * (l - 1) >= 0) by (nonlinear_arith)
                requires
                    s > 0,
                    l >= 1,
            ;
        }
    }

    /// Each range starts with an aligned node sitting at its cell's grid key.
    pub proof fn lemma_invariant_range_begin(&self, i: int)
        requires
            self.wf(),
            0 <= i < self.rlen(),
        ensures
            self.node_at(self.rngs()[i].0 as int) is Aligned,
            self.vkey(i, self.rngs()[i].0 as int) == self.ks() + self.step() * i,
    {
        assert(self.range_ok(i));
    }

    /// Keys are monotonically non-decreasing along buffer order: a node in an
    /// earlier position never carries a larger key than a later one.
    pub proof fn lemma_invariant_keys_monotone(&self, i1: int, c1: int, i2: int, c2: int)
        requires
            self.wf(),
            0 <= i1 <= i2 < self.rlen(),
            self.rngs()[i1].0 <= c1 <= self.rngs()[i1].1,
            self.rngs()[i2].0 <= c2 <= self.rngs()[i2].1,
            c1 <= c2,
        ensures
            self.vkey(i1, c1) <= self.vkey(i2, c2),
    {
        self.lemma_vkey_sorted(i1);
        self.lemma_vkey_sorted(i2);
        if i1 < i2 {
            let e1 = self.rngs()[i1].1 as int;
            let b2 = self.rngs()[i2].0 as int;
            assert(self.range_ok(i1 + 1));
            assert(self.node_at(e1) is Aligned);
            assert(self.vkey(i1, e1) == self.grid(i1 + 1));
            assert(self.vkey(i2, b2) == self.grid(i2));
            assert(self.step() * (i1 + 1) <= self.step() * i2) by (nonlinear_arith)
                requires
                    self.step() > 0,
                    i1 + 1 <= i2,
            ;
            assert(self.vkey(i1, c1) <= self.vkey(i1, e1));
            assert(self.vkey(i2, b2) <= self.vkey(i2, c2));
        }
    }

    /// `next_step` stays within `(0, aligned_step]`, except that it reaches
    /// zero when the leading node is a not-aligned sample sitting exactly on
    /// the next grid boundary.
    pub proof fn lemma_invariant_next_step(&self)
        requires
            self.wf(),
        ensures
            0 <= self.ns() <= self.step(),
            self.ns() == 0 ==> self.nlen() > 0 && self.leading() is NotAligned && Self::na_key(
                self.leading(),
            ) == self.ks() + self.step() * self.rlen(),
    {
    }

    /// `key_end` is the next grid key when the leading node is aligned, and
    /// the leading node's own key otherwise.
    pub proof fn lemma_invariant_leading_key(&self)
        requires
            self.wf(),
            self.nlen() > 0,
        ensures
            self.leading() is Aligned ==> self.ke() == self.ks() + self.step() * self.rlen(),
            self.leading() is NotAligned ==> self.ke() == Self::na_key(self.leading()),
    {
        assert(self.step() * 0 == 0) by (nonlinear_arith);
        if self.rlen() == 0 {
            assert(self.leading() == self.nodes()[0]);
        }
    }

    /// The track holds ranges exactly when it holds at least two nodes; and
    /// when every node is aligned, one range per adjacent pair.
    pub proof fn lemma_invariant_range_count(&self)
        requires
            self.wf(),
        ensures
            (self.rlen() == 0) == (self.nlen() <= 1),
            (forall|j: int| 0 <= j < self.nlen() ==> (#[trigger] self.nodes()[j]) is Aligned)
                ==> self.rlen() == if self.nlen() <= 1 {
                0int
            } else {
                self.nlen() - 1
            },
    {
        if self.rlen() > 0 && (forall|j: int|
            0 <= j < self.nlen() ==> (#[trigger] self.nodes()[j]) is Aligned) {
            self.lemma_unit_ranges(self.rlen() - 1);
        }
    }

    /// When every node is aligned each range spans one node, so range `i`
    /// begins `i` nodes past the window's base.
    proof fn lemma_unit_ranges(&self, i: int)
        requires
            self.wf(),
            self.rlen() > 0,
            forall|j: int| 0 <= j < self.nlen() ==> (#[trigger] self.nodes()[j]) is Aligned,
            0 <= i < self.rlen(),
        ensures
            self.rngs()[i].0 == self.base() + i,
            self.rngs()[i].1 == self.base() + i + 1,
        decreases i,
    {
        assert(self.range_ok(i));
        self.lemma_range_counters(i);
        if self.rngs()[i].1 > self.rngs()[i].0 + 1 {
            let c = self.rngs()[i].0 + 1;
            assert(self.node_at(c as int) is NotAligned);
            assert(self.nodes()[c - self.base()] is Aligned);
            assert(false);
        }
        if i > 0 {
            self.lemma_unit_ranges(i - 1);
        }
    }

    /// Pushing an aligned sample and cancelling at the new leading edge's key
    /// removes exactly the pushed node and restores the previous state.
    pub proof fn lemma_cancel_restores_push(
        pre: Self,
        mid: Self,
        post: Self,
        d: Data<I>,
        removed: Seq<Node<I>>,
    )
        requires
            pre.wf(),
            pre.nlen() > 0,
            mid.wf(),
            Self::push_aligned_ok(pre, mid, d),
            post.nodes() == mid.nodes().take(mid.cancel_cut(mid.ke()) - mid.base() + 1),
            removed == mid.nodes().skip(mid.cancel_cut(mid.ke()) - mid.base() + 1),
            post.rngs() == mid.cancel_rngs(mid.ke()),
            post.ks() == mid.ks(),
            post.ke() == mid.cancel_ke(mid.ke()),
            post.ns() == mid.cancel_ns(mid.ke()),
        ensures
            post.nodes() == pre.nodes(),
            post.rngs() == pre.rngs(),
            post.ks() == pre.ks(),
            post.ke() == pre.ke(),
            post.ns() == pre.ns(),
            removed == seq![TrackNode::<Key<I>, Data<I>, NotAlignedData<I>>::Aligned(d)],
            mid.ks() < mid.ke(),
    {
        let l = pre.rlen();
        let s = pre.step();
        pre.lemma_invariant_key_order();
        mid.lemma_invariant_key_order();
        let k = mid.ke();
        let cut = mid.cancel_cut(k);
        assert(mid.rlen() >= 1);
        mid.lemma_range_counters(mid.rlen() - 1);
        assert(mid.nlen() == pre.nlen() + 1);
        assert(mid.base() == pre.base());
        assert(cut == mid.base() + mid.nlen() - 2);
        assert(post.nodes() =~= pre.nodes());
        assert(removed =~= seq![TrackNode::<Key<I>, Data<I>, NotAlignedData<I>>::Aligned(d)]);
        if l == 0 {
            assert(mid.rngs() == seq![(0usize, 1usize)]);
            assert(cut == mid.rngs()[0].0);
            assert(post.rngs() =~= mid.rngs().take(0));
            assert(post.rngs() =~= pre.rngs());
            assert(post.nodes()[0] == pre.nodes()[0]);
            assert(mid.node_at(cut) is Aligned);
            assert(s * 0 == 0) by (nonlinear_arith);
        } else {
            pre.lemma_range_counters(l - 1);
            if pre.leading() is Aligned {
                assert(mid.rngs() == pre.rngs().push(
                    (pre.last_end(), (pre.last_end() + 1) as usize),
                ));
                assert(cut == pre.last_end());
                assert(cut == mid.rngs()[mid.rlen() - 1].0);
                assert(post.rngs() =~= pre.rngs());
                assert(mid.node_at(cut) == pre.leading());
                assert(post.ke() == mid.ks() + s * l);
            } else {
                assert(mid.rngs() == pre.rngs().update(
                    l - 1,
                    (pre.rngs()[l - 1].0, (pre.last_end() + 1) as usize),
                ));
                assert(pre.last_end() < usize::MAX);
                assert(cut == pre.last_end());
                assert(cut > mid.rngs()[mid.rlen() - 1].0);
                assert(post.rngs() =~= pre.rngs());
                assert(mid.node_at(cut) == pre.leading());
                assert(post.ke() == Self::na_key(pre.leading()));
                assert(post.ns() == mid.ks() + s * l - post.ke());
            }
        }
    }

    /// Resetting twice to the same key is the same as resetting once: the
    /// second reset leaves every observable unchanged.
    pub proof fn lemma_reset_idempotent(a: Self, b: Self, c: Self, k0: Key<I>)
        requires
            Self::reset_post(a, b, k0),
            Self::reset_post(b, c, k0),
        ensures
            c.nodes() =~= b.nodes(),
            c.rngs() =~= b.rngs(),
            c.ks() == b.ks(),
            c.ke() == b.ke(),
            c.ns() == b.ns(),
            c.step() == b.step(),
            c.cap() == b.cap(),
            c.rcap() == b.rcap(),
    {
    }

    /// Along a chain of successful aligned pushes onto a track whose leading
    /// node is aligned, each push opens one new range.
    proof fn lemma_push_chain(states: Seq<Self>, data: Seq<Data<I>>, j: int)
        requires
            states.len() == data.len() + 1,
            0 <= j <= data.len(),
            states[0].nlen() > 0,
            states[0].rlen() > 0,
            states[0].leading() is Aligned,
            forall|i: int|
                0 <= i < data.len() ==> #[trigger] Self::push_aligned_ok(
                    states[i],
                    states[i + 1],
                    data[i],
                ),
        ensures
            states[j].rlen() == states[0].rlen() + j,
            states[j].nlen() == states[0].nlen() + j,
            states[j].leading() is Aligned,
        decreases j,
    {
        if j > 0 {
            Self::lemma_push_chain(states, data, j - 1);
            let i = j - 1;
            assert(Self::push_aligned_ok(states[i], states[i + 1], data[i]));
            assert(states[i + 1] == states[j]);
        }
    }

    /// Truncating at `k` and then pushing one aligned sample per dropped cell
    /// returns the range table to its former length. Holds when the leading
    /// node is aligned; a not-aligned leading node absorbs the first push
    /// into its own cell instead.
    pub proof fn lemma_truncate_then_push_restores_ranges(
        pre: Self,
        states: Seq<Self>,
        data: Seq<Data<I>>,
        k: int,
    )
        requires
            pre.wf(),
            pre.rlen() >= 2,
            k >= pre.ks(),
            pre.leading() is Aligned,
            states.len() == data.len() + 1,
            data.len() == pre.trunc_count(k),
            states[0].rngs() == pre.rngs().skip(pre.trunc_count(k)),
            states[0].nodes() == pre.nodes().skip(
                pre.rngs()[pre.trunc_count(k)].0 - pre.base(),
            ),
            forall|i: int|
                0 <= i < data.len() ==> #[trigger] Self::push_aligned_ok(
                    states[i],
                    states[i + 1],
                    data[i],
                ),
        ensures
            states.last().rlen() == pre.rlen(),
    {
        let dropped = pre.trunc_count(k);
        pre.lemma_range_counters(dropped);
        pre.lemma_range_counters(pre.rlen() - 1);
        assert(states[0].rlen() == pre.rlen() - dropped);
        assert(states[0].nodes().len() > 0);
        assert(states[0].leading() == pre.leading());
        Self::lemma_push_chain(states, data, data.len() as int);
        assert(states.last() == states[data.len() as int]);
    }

    /// The counter of the left node of the bracketing pair for `k`.
    pub open spec fn bracket_lo(&self, k: int) -> int {
        let i = self.cell_of(k);
        self.blo(i, self.rngs()[i].1 - 1, k)
    }

    /// Interpolates at `key`: finds the two nodes bracketing `key` and hands
    /// them, with their keys, to the interpolator. Fails with `KeyNotInRange`
    /// exactly when `key` lies outside `[key_start, key_end)`; the track
    /// itself is never changed, though the interpolator may update its own
    /// state.
    pub fn interpolate(&mut self, key: &Key<I>) -> (r: core::result::Result<Output<I>, Error>)
        requires
            old(self).wf(),
        ensures
            final(self).wf(),
            final(self).nodes() == old(self).nodes(),
            final(self).rngs() == old(self).rngs(),
            final(self).ks() == old(self).ks(),
            final(self).ke() == old(self).ke(),
            final(self).ns() == old(self).ns(),
            final(self).step() == old(self).step(),
            final(self).cap() == old(self).cap(),
            final(self).rcap() == old(self).rcap(),
            match r {
                Err(e) => {
                    &&& e == Error::KeyNotInRange
                    &&& !(old(self).ks() <= key.key_int() < old(self).ke())
                    &&& final(self).interp() == old(self).interp()
                },
                Ok(out) => {
                    &&& old(self).ks() <= key.key_int() < old(self).ke()
                    &&& ({
                        let pre = *old(self);
                        let i = pre.cell_of(key.key_int());
                        let lo = pre.bracket_lo(key.key_int());
                        exists|bk: Key<I>, ek: Key<I>|
                            {
                                &&& bk.key_int() == pre.vkey(i, lo)
                                &&& ek.key_int() == pre.vkey(i, lo + 1)
                                &&& out == pre.interp().interp_spec(
                                    *key,
                                    bk,
                                    pre.node_at(lo),
                                    ek,
                                    pre.node_at(lo + 1),
                                )
                            }
                    })
                },
            },
    {
        if key.key_lt(&self.key_start) || self.key_end.key_le(key) {
            proof {
                Self::lemma_wf_same(*old(self), *self);
            }
            return Err(Error::KeyNotInRange);
        }
        proof {
            self.lemma_cell_bounds(key.key_int());
        }
        let ri = self.range_index(key);
        let nodes = self.find_nearby_nodes_in_range(ri, key);
        proof {
            self.lemma_range_counters(ri as int);
        }
        let base = self.base_idx();
        let lhs = self.buf.get(nodes.begin_index - base);
        let rhs = self.buf.get(nodes.end_index - base);
        let out = self.interpolator.interpolate(key, nodes.begin_key, lhs, nodes.end_key, rhs);
        proof {
            Self::lemma_wf_same(*old(self), *self);
        }
        Ok(out)
    }
}

/// Answers, for each counter of one range, the virtual key that the bisect
/// compares against: the cell's left grid key for the range's begin, the
/// supplied right key for its end, and each interior node's own key.
struct TrackRangeAdapter<'b, I: TrackInterpolator> {
    buf: &'b Buffer<Node<I>>,
    range: TrackRange,
    base: usize,
    left_key: Key<I>,
    right_key: Key<I>,
    track: Ghost<Track<I>>,
    ridx: Ghost<int>,
}

impl<'b, I: TrackInterpolator> TrackRangeAdapter<'b, I> {
    fn new(
        buf: &'b Buffer<Node<I>>,
        range: TrackRange,
        base: usize,
        left_key: Key<I>,
        right_key: Key<I>,
        track: Ghost<Track<I>>,
        ridx: Ghost<int>,
    ) -> (r: Self)
        ensures
            r.buf == buf,
            r.range == range,
            r.base == base,
            r.left_key == left_key,
            r.right_key == right_key,
            r.track == track,
            r.ridx == ridx,
    {
        TrackRangeAdapter { buf, range, base, left_key, right_key, track, ridx }
    }
}

impl<'b, I: TrackInterpolator> crate::search::KeyTable<Key<I>> for TrackRangeAdapter<'b, I> {
    closed spec fn key_at(&self, c: int) -> int {
        self.track@.vkey(self.ridx@, c)
    }

    closed spec fn index_valid(&self, c: int) -> bool {
        let t = self.track@;
        let i = self.ridx@;
        &&& t.wf()
        &&& self.buf.inv()
        &&& !self.buf.spec_reversed()
        &&& 0 <= i < t.rlen()
        &&& self.range == t.rngs()[i]
        &&& self.base == t.base()
        &&& self.buf@ == t.nodes()
        &&& self.left_key.key_int() == t.grid(i)
        &&& self.right_key.key_int() == t.vkey(i, self.range.1 as int)
        &&& self.range.0 <= c <= self.range.1
    }

    fn key_ref(&self, c: usize) -> (r: &Key<I>) {
        proof {
            self.track@.lemma_range_counters(self.ridx@);
            assert(self.track@.range_ok(self.ridx@));
        }
        if c == self.range.0 {
            &self.left_key
        } else if c == self.range.1 {
            &self.right_key
        } else {
            proof {
                assert(self.track@.node_at(c as int) is NotAligned);
                assert(self.buf@[c - self.base] == self.track@.node_at(c as int));
            }
            match self.buf.get(c - self.base) {
                TrackNode::NotAligned(n) => &n.key,
                TrackNode::Aligned(_) => {
                    proof {
                        assert(false);
                    }
                    &self.left_key
                },
            }
        }
    }
}

} // verus!
