use vstd::prelude::*;

verus! {

/// `f` is associative and `e` is its identity on both sides.
pub open spec fn monoid_laws<T>(f: spec_fn(T, T) -> T, e: T) -> bool {
    &&& forall|a: T, b: T, c: T| #[trigger] f(f(a, b), c) == f(a, f(b, c))
    &&& forall|a: T| #[trigger] f(e, a) == a
    &&& forall|a: T| #[trigger] f(a, e) == a
}

/// `op` computes `f` and `identity` returns `e`, on every input.
pub open spec fn implements<T, Op: Fn(T, T) -> T, Identity: Fn() -> T>(
    op: Op,
    identity: Identity,
    f: spec_fn(T, T) -> T,
    e: T,
) -> bool {
    &&& forall|a: T, b: T| #[trigger] call_requires(op, (a, b))
    &&& forall|a: T, b: T, r: T| #[trigger] call_ensures(op, (a, b), r) ==> r == f(a, b)
    &&& call_requires(identity, ())
    &&& forall|r: T| #[trigger] call_ensures(identity, (), r) ==> r == e
}

/// `op` and `identity` compute a monoid.
pub open spec fn is_monoid<T, Op: Fn(T, T) -> T, Identity: Fn() -> T>(
    op: Op,
    identity: Identity,
) -> bool {
    exists|f: spec_fn(T, T) -> T, e: T| monoid_laws(f, e) && implements(op, identity, f, e)
}

/// `op` accepts every pair of values.
pub open spec fn callable<T, Op: Fn(T, T) -> T>(op: Op) -> bool {
    forall|a: T, b: T| #[trigger] call_requires(op, (a, b))
}

/// A clone of a `T` equals the original.
pub open spec fn clone_is_exact<T: Clone>() -> bool {
    forall|a: T, b: T| #[trigger] call_ensures(T::clone, (&a,), b) ==> a == b
}

/// `a` is a strict ancestor of node `n` in the implicit binary tree: `a` is reached from
/// `n` by halving one or more times.
pub open spec fn is_ancestor(a: int, n: int) -> bool
    decreases n,
{
    if n <= 1 {
        false
    } else {
        n / 2 == a || is_ancestor(a, n / 2)
    }
}

/// The parent of an ancestor is an ancestor too.
pub proof fn lemma_ancestor_up(a: int, n: int)
    requires
        a > 1,
        is_ancestor(a, n),
    ensures
        is_ancestor(a / 2, n),
    decreases n,
{
    if n / 2 != a {
        lemma_ancestor_up(a, n / 2);
    } else {
        assert(is_ancestor(a / 2, a));
    }
}

/// The left-to-right reduction of `s` under `f`, starting from `init`.
pub open spec fn reduce<T>(f: spec_fn(T, T) -> T, init: T, s: Seq<T>) -> T
    decreases s.len(),
{
    if s.len() == 0 {
        init
    } else {
        f(reduce(f, init, s.drop_last()), s.last())
    }
}

/// Reducing a concatenation combines the reductions of its two parts.
pub proof fn lemma_reduce_concat<T>(op: spec_fn(T, T) -> T, id: T, s: Seq<T>, t: Seq<T>)
    requires
        monoid_laws(op, id),
    ensures
        reduce(op, id, s + t) == op(reduce(op, id, s), reduce(op, id, t)),
    decreases t.len(),
{
    if t.len() == 0 {
        assert(s + t =~= s);
    } else {
        assert((s + t).drop_last() =~= s + t.drop_last());
        lemma_reduce_concat(op, id, s, t.drop_last());
        let rs = reduce(op, id, s);
        let rt = reduce(op, id, t.drop_last());
        assert(op(op(rs, rt), t.last()) == op(rs, op(rt, t.last())));
    }
}

/// Reducing a sequence of one element gives that element.
pub proof fn lemma_reduce_single<T>(op: spec_fn(T, T) -> T, id: T, x: T)
    requires
        monoid_laws(op, id),
    ensures
        reduce(op, id, seq![x]) == x,
{
    assert(seq![x].drop_last() =~= Seq::<T>::empty());
    assert(reduce(op, id, Seq::<T>::empty()) == id);
    assert(op(id, x) == x);
}

/// One end of a range of positions.
#[derive(Clone, Copy, Debug)]
pub enum Endpoint {
    Included(usize),
    Excluded(usize),
    Unbounded,
}

/// The first position of a range that starts at `b`.
pub open spec fn start_of(b: Endpoint) -> int {
    match b {
        Endpoint::Included(x) => x as int,
        Endpoint::Excluded(x) => x + 1,
        Endpoint::Unbounded => 0,
    }
}

/// The position just past a range that ends at `b`, in a sequence of length `len`.
pub open spec fn end_of(b: Endpoint, len: int) -> int {
    match b {
        Endpoint::Included(x) => x + 1,
        Endpoint::Excluded(x) => x as int,
        Endpoint::Unbounded => len,
    }
}

/// The half-open range of positions from `start` to `end` in a sequence of length `len`.
pub fn open(start: Endpoint, end: Endpoint, len: usize) -> (r: core::ops::Range<usize>)
    requires
        start_of(start) <= usize::MAX,
        end_of(end, len as int) <= usize::MAX,
    ensures
        r.start == start_of(start),
        r.end == end_of(end, len as int),
{
    let lo = match start {
        Endpoint::Included(x) => x,
        Endpoint::Excluded(x) => x + 1,
        Endpoint::Unbounded => 0,
    };
    let hi = match end {
        Endpoint::Included(x) => x + 1,
        Endpoint::Excluded(x) => x,
        Endpoint::Unbounded => len,
    };
    lo..hi
}

/// A segment tree over a fixed sequence: point updates and range folds under a monoid,
/// each in a logarithmic number of applications of `op`.
///
/// Node `i` of `table` lives at slot `i`; the leaves sit at `[len, 2 * len)` and each slot
/// `i` in `[1, len)` holds `op(table[2 * i], table[2 * i + 1])`.
pub struct Segtree<T, Op, Identity> {
    len: usize,
    table: Vec<T>,
    op: Op,
    identity: Identity,
}

/// A pending write to one leaf of a [`Segtree`], applied by [`Segtree::commit`].
pub struct Entry<T> {
    index: usize,
    value: T,
}

impl<T> Entry<T> {
    /// The position of the leaf that this entry writes.
    pub closed spec fn position(&self) -> nat {
        self.index as nat
    }

    /// The value that this entry will write.
    pub closed spec fn content(&self) -> T {
        self.value
    }

    pub fn index(&self) -> (r: usize)
        ensures
            r == self.position(),
    {
        self.index
    }

    pub fn get(&self) -> (r: &T)
        ensures
            *r == self.content(),
    {
        &self.value
    }

    pub fn set(&mut self, value: T)
        ensures
            final(self).position() == old(self).position(),
            final(self).content() == value,
    {
        self.value = value;
    }
}

impl<T, Op, Identity> View for Segtree<T, Op, Identity> {
    type V = Seq<T>;

    /// The current leaves, in order.
    open spec fn view(&self) -> Seq<T> {
        self.nodes().subrange(self.size() as int, 2 * self.size() as int)
    }
}

impl<T, Op, Identity> Segtree<T, Op, Identity> {
    /// Every slot of the backing table, by node index.
    pub closed spec fn nodes(&self) -> Seq<T> {
        self.table@
    }

    /// The number of leaves.
    pub closed spec fn size(&self) -> nat {
        self.len as nat
    }

    pub closed spec fn operation(&self) -> Op {
        self.op
    }

    pub closed spec fn identity_fn(&self) -> Identity {
        self.identity
    }
}

impl<T: Clone, Op: Fn(T, T) -> T, Identity: Fn() -> T> Segtree<T, Op, Identity> {
    /// `(f, e)` is a monoid that the tree's `op` and `identity` compute.
    pub open spec fn models(&self, f: spec_fn(T, T) -> T, e: T) -> bool {
        monoid_laws(f, e) && implements(self.operation(), self.identity_fn(), f, e)
    }

    /// Slot `i` holds the combination under `f` of its two children.
    pub open spec fn consistent_at(&self, f: spec_fn(T, T) -> T, i: int) -> bool {
        self.nodes()[i] == f(self.nodes()[2 * i], self.nodes()[2 * i + 1])
    }

    /// Slot `i` holds what `op` returned on its two children.
    pub open spec fn stored_at(&self, i: int) -> bool {
        call_ensures(self.operation(), (self.nodes()[2 * i], self.nodes()[2 * i + 1]), self.nodes()[i])
    }

    /// The operation and identity of the tree compute a monoid.
    pub open spec fn folds_a_monoid(&self) -> bool {
        is_monoid(self.operation(), self.identity_fn())
    }

    /// The storage invariant: the table has two slots per leaf, `op` can be called on any
    /// pair, clones are exact, and every internal slot holds what `op` returned on its
    /// children.
    pub open spec fn wf(&self) -> bool {
        &&& self.nodes().len() == 2 * self.size()
        &&& 2 * self.size() <= usize::MAX
        &&& callable(self.operation())
        &&& clone_is_exact::<T>()
        &&& forall|i: int| 1 <= i < self.size() ==> #[trigger] self.stored_at(i)
    }

    /// Every internal slot is the combination, under any function that `op` computes, of
    /// its two children.
    pub proof fn lemma_consistent(&self, f: spec_fn(T, T) -> T, e: T)
        requires
            self.wf(),
            implements(self.operation(), self.identity_fn(), f, e),
        ensures
            forall|i: int| 1 <= i < self.size() ==> #[trigger] self.consistent_at(f, i),
    {
        assert forall|i: int| 1 <= i < self.size() implies #[trigger] self.consistent_at(f, i) by {
            assert(self.stored_at(i));
        }
    }

    /// The left-to-right reduction under `f` of the leaves in `[start, end)`, starting from
    /// `e`.
    pub open spec fn fold_spec(&self, f: spec_fn(T, T) -> T, e: T, start: int, end: int) -> T {
        reduce(f, e, self@.subrange(start, end))
    }

    /// Builds a tree whose leaves are `slice`, in order.
    pub fn new(slice: &[T], op: Op, identity: Identity) -> (r: Self)
        requires
            slice@.len() <= usize::MAX / 2,
            callable(op),
            clone_is_exact::<T>(),
        ensures
            r.wf(),
            r@ == slice@,
            r.operation() == op,
            r.identity_fn() == identity,
    {
        let len = slice.len();
        let mut table: Vec<T> = Vec::with_capacity(2 * len);
        let mut k: usize = 0;
        while k < len
            invariant
                k <= len == slice@.len(),
                table@ == slice@.subrange(0, k as int),
                callable(op),
                clone_is_exact::<T>(),
            decreases len - k,
        {
            let x = slice[k].clone();
            table.push(x);
            k += 1;
        }
        k = 0;
        while k < len
            invariant
                k <= len == slice@.len(),
                table@ == slice@ + slice@.subrange(0, k as int),
                callable(op),
                clone_is_exact::<T>(),
            decreases len - k,
        {
            let x = slice[k].clone();
            table.push(x);
            k += 1;
        }
        assert(table@.subrange(len as int, 2 * len) =~= slice@);
        let mut i: usize = len;
        while i > 1
            invariant
                i <= len == slice@.len() <= usize::MAX / 2,
                table@.len() == 2 * len,
                table@.subrange(len as int, 2 * len) == slice@,
                callable(op),
                clone_is_exact::<T>(),
                forall|j: int|
                    1 <= j < len && i <= j ==> call_ensures(
                        op,
                        (table@[2 * j], table@[2 * j + 1]),
                        #[trigger] table@[j],
                    ),
            decreases i,
        {
            i -= 1;
            let a = table[2 * i].clone();
            let b = table[2 * i + 1].clone();
            let v = op(a, b);
            let ghost before = table@;
            table.set(i, v);
            assert(table@.subrange(len as int, 2 * len) =~= before.subrange(len as int, 2 * len));
        }
        let r = Segtree { len, table, op, identity };
        assert forall|j: int| 1 <= j < r.size() implies #[trigger] r.stored_at(j) by {
            assert(call_ensures(op, (r.nodes()[2 * j], r.nodes()[2 * j + 1]), r.nodes()[j]));
        }
        r
    }

    /// The current leaves, in order.
    pub fn as_slice(&self) -> (r: &[T])
        requires
            self.wf(),
        ensures
            r@ == self@,
    {
        let s = self.table.as_slice();
        let r = &s[self.len..2 * self.len];
        r
    }

    /// Starts a write to the leaf at `index`; it holds the leaf's current value.
    pub fn entry(&self, index: usize) -> (r: Entry<T>)
        requires
            self.wf(),
            index < self@.len(),
        ensures
            r.position() == index,
            r.content() == self@[index as int],
    {
        let value = self.table[self.len + index].clone();
        Entry { index, value }
    }

    /// Writes the value of `entry` to its leaf and recomputes the aggregates on the path
    /// from that leaf to the root.
    pub fn commit(&mut self, entry: Entry<T>)
        requires
            old(self).wf(),
            entry.position() < old(self)@.len(),
        ensures
            final(self).wf(),
            final(self)@ == old(self)@.update(entry.position() as int, entry.content()),
            final(self)@[entry.position() as int] == entry.content(),
            final(self).operation() == old(self).operation(),
            final(self).identity_fn() == old(self).identity_fn(),
            forall|j: int|
                1 <= j < old(self).size() && !is_ancestor(j, (old(self).size() + entry.position()) as int)
                    ==> #[trigger] final(self).nodes()[j] == old(self).nodes()[j],
    {
        let Entry { index, value } = entry;
        let len = self.len;
        let ghost leaves = self@;
        let ghost op = self.op;
        let ghost identity = self.identity;
        let mut node: usize = len + index;
        let ghost leaf = node as int;
        let ghost start_nodes = self.table@;
        let ghost s0 = *self;
        self.table.set(node, value);
        assert(self@ =~= leaves.update(index as int, value));
        assert forall|j: int| 1 <= j < len && j != node / 2 implies #[trigger] self.stored_at(j) by {
            assert(s0.stored_at(j));
        }
        while node > 1
            invariant
                1 <= node < 2 * len,
                self.len == len,
                self.table@.len() == 2 * len,
                2 * len <= usize::MAX,
                self.op == op,
                self.identity == identity,
                callable(op),
                clone_is_exact::<T>(),
                self@ == leaves.update(index as int, value),
                forall|j: int|
                    1 <= j < len && j != node / 2 ==> #[trigger] self.stored_at(j),
                node == leaf || is_ancestor(node as int, leaf),
                leaf == len + index,
                forall|j: int|
                    1 <= j < len && !is_ancestor(j, leaf) ==> #[trigger] self.table@[j]
                        == start_nodes[j],
            decreases node,
        {
            proof {
                if node as int != leaf {
                    lemma_ancestor_up(node as int, leaf);
                }
            }
            node = node / 2;
            let a = self.table[2 * node].clone();
            let b = self.table[2 * node + 1].clone();
            let v = (self.op)(a, b);
            let ghost before = self.table@;
            let ghost s1 = *self;
            self.table.set(node, v);
            assert(self.table@.subrange(len as int, 2 * len) =~= before.subrange(
                len as int,
                2 * len,
            ));
            assert forall|j: int| 1 <= j < len && j != node / 2 implies #[trigger] self.stored_at(j) by {
                if j != node as int {
                    assert(s1.stored_at(j));
                }
            }
        }
    }

    /// The left-to-right fold of the leaves in `range` under `op`, starting from what
    /// `identity` returns; an empty range gives that identity. The result is stated for
    /// every monoid that `op` and `identity` compute.
    pub fn fold(&self, range: core::ops::Range<usize>) -> (r: T)
        requires
            self.wf(),
            self.folds_a_monoid(),
            range.start <= range.end <= self@.len(),
        ensures
            forall|f: spec_fn(T, T) -> T, e: T|
                #[trigger] self.models(f, e) ==> r == self.fold_spec(
                    f,
                    e,
                    range.start as int,
                    range.end as int,
                ),
    {
        let len = self.len;
        let ghost l0 = range.start as int;
        let ghost r0 = range.end as int;
        let mut start = range.start + len;
        let mut end = range.end + len;
        let mut fl = (self.identity)();
        let mut fr = (self.identity)();
        proof {
            assert(self@.subrange(l0, r0) =~= self.nodes().subrange(start as int, end as int));
            assert forall|f: spec_fn(T, T) -> T, e: T| #[trigger] self.models(f, e) implies self.fold_spec(
                f,
                e,
                l0,
                r0,
            ) == f(f(fl, reduce(f, e, self.nodes().subrange(start as int, end as int))), fr) by {
                let m = reduce(f, e, self.nodes().subrange(start as int, end as int));
                assert(f(e, m) == m);
                assert(f(m, e) == m);
            }
        }
        while start != end
            invariant
                self.wf(),
                len == self.size(),
                start <= end <= 2 * len,
                start < end ==> 1 <= start,
                forall|f: spec_fn(T, T) -> T, e: T|
                    #[trigger] self.models(f, e) ==> self.fold_spec(f, e, l0, r0) == f(
                        f(fl, reduce(f, e, self.nodes().subrange(start as int, end as int))),
                        fr,
                    ),
            decreases end,
        {
            if start % 2 == 1 {
                let x = self.table[start].clone();
                let ghost fl0 = fl;
                fl = (self.op)(fl, x);
                start += 1;
                proof {
                    assert forall|f: spec_fn(T, T) -> T, e: T| #[trigger] self.models(f, e) implies self.fold_spec(
                        f,
                        e,
                        l0,
                        r0,
                    ) == f(f(fl, reduce(f, e, self.nodes().subrange(start as int, end as int))), fr) by {
                        let rest = self.nodes().subrange(start as int, end as int);
                        assert(self.nodes().subrange(start - 1, end as int) =~= seq![x] + rest);
                        lemma_reduce_concat(f, e, seq![x], rest);
                        lemma_reduce_single(f, e, x);
                        let rr = reduce(f, e, rest);
                        assert(f(f(fl0, x), rr) == f(fl0, f(x, rr)));
                    }
                }
            }
            if end % 2 == 1 {
                end -= 1;
                let x = self.table[end].clone();
                let ghost fr0 = fr;
                fr = (self.op)(x, fr);
                proof {
                    assert forall|f: spec_fn(T, T) -> T, e: T| #[trigger] self.models(f, e) implies self.fold_spec(
                        f,
                        e,
                        l0,
                        r0,
                    ) == f(f(fl, reduce(f, e, self.nodes().subrange(start as int, end as int))), fr) by {
                        let mid = self.nodes().subrange(start as int, end as int);
                        assert(self.nodes().subrange(start as int, end + 1).drop_last() =~= mid);
                        let rm = reduce(f, e, mid);
                        assert(f(fl, f(rm, x)) == f(f(fl, rm), x));
                        assert(f(f(f(fl, rm), x), fr0) == f(f(fl, rm), f(x, fr0)));
                    }
                }
            }
            let ghost s_old = start as int;
            let ghost e_old = end as int;
            start = start / 2;
            end = end / 2;
            proof {
                assert forall|f: spec_fn(T, T) -> T, e: T| #[trigger] self.models(f, e) implies self.fold_spec(
                    f,
                    e,
                    l0,
                    r0,
                ) == f(f(fl, reduce(f, e, self.nodes().subrange(start as int, end as int))), fr) by {
                    self.lemma_level(f, e, s_old, e_old);
                }
            }
        }
        let r = (self.op)(fl, fr);
        proof {
            assert forall|f: spec_fn(T, T) -> T, e: T| #[trigger] self.models(f, e) implies r
                == self.fold_spec(f, e, l0, r0) by {
                assert(self.nodes().subrange(start as int, end as int) =~= Seq::<T>::empty());
                assert(f(fl, e) == fl);
            }
        }
        r
    }

    /// The fold of the leaves between two endpoints; see [`open`].
    pub fn fold_bounds(&self, start: Endpoint, end: Endpoint) -> (r: T)
        requires
            self.wf(),
            self.folds_a_monoid(),
            0 <= start_of(start) <= end_of(end, self@.len() as int) <= self@.len(),
        ensures
            forall|f: spec_fn(T, T) -> T, e: T|
                #[trigger] self.models(f, e) ==> r == self.fold_spec(
                    f,
                    e,
                    start_of(start),
                    end_of(end, self@.len() as int),
                ),
    {
        let range = open(start, end, self.len);
        self.fold(range)
    }

    /// The fold of an empty range is the identity, wherever the range stands.
    pub proof fn lemma_fold_empty(&self, f: spec_fn(T, T) -> T, e: T, k: int)
        requires
            0 <= k <= self@.len(),
        ensures
            self.fold_spec(f, e, k, k) == e,
    {
        assert(self@.subrange(k, k) =~= Seq::<T>::empty());
    }

    /// After the leaf at `pos` of `before` is set to `value`, a fold over a range that covers
    /// `pos`, under any monoid, combines the fold before `pos`, the new value, and the fold
    /// after `pos`.
    pub proof fn lemma_fold_after_update(
        before: Self,
        after: Self,
        pos: int,
        value: T,
        start: int,
        end: int,
        f: spec_fn(T, T) -> T,
        e: T,
    )
        requires
            monoid_laws(f, e),
            0 <= pos < before@.len(),
            after@ == before@.update(pos, value),
            0 <= start <= pos < end <= before@.len(),
        ensures
            after.fold_spec(f, e, start, end) == f(
                f(before.fold_spec(f, e, start, pos), value),
                before.fold_spec(f, e, pos + 1, end),
            ),
    {
        let left = before@.subrange(start, pos);
        let right = before@.subrange(pos + 1, end);
        assert(after@.subrange(start, end) =~= (left + seq![value]) + right);
        lemma_reduce_concat(f, e, left + seq![value], right);
        lemma_reduce_concat(f, e, left, seq![value]);
        lemma_reduce_single(f, e, value);
    }

    /// After an update, the updated leaf reads back as the new value and every other leaf
    /// is unchanged.
    pub proof fn lemma_read_after_update(before: Self, after: Self, pos: int, value: T)
        requires
            0 <= pos < before@.len(),
            after@ == before@.update(pos, value),
        ensures
            after@[pos] == value,
            after@.len() == before@.len(),
            forall|i: int| 0 <= i < before@.len() && i != pos ==> after@[i] == before@[i],
    {
    }

    /// On a level of even bounds, reducing the nodes `[start, end)` equals reducing their
    /// parents `[start / 2, end / 2)`.
    proof fn lemma_level(&self, f: spec_fn(T, T) -> T, e: T, start: int, end: int)
        requires
            self.wf(),
            self.models(f, e),
            0 <= start,
            start % 2 == 0,
            end % 2 == 0,
            start <= end <= 2 * self.size(),
            start < end ==> 1 <= start,
        ensures
            reduce(f, e, self.nodes().subrange(start, end)) == reduce(
                f,
                e,
                self.nodes().subrange(start / 2, end / 2),
            ),
        decreases end - start,
    {
        let t = self.nodes();
        self.lemma_consistent(f, e);
        if start == end {
            assert(t.subrange(start, end) =~= Seq::<T>::empty());
            assert(t.subrange(start / 2, end / 2) =~= Seq::<T>::empty());
        } else {
            let j = end / 2 - 1;
            self.lemma_level(f, e, start, end - 2);
            assert(self.consistent_at(f, j));
            assert(t.subrange(start, end).drop_last() =~= t.subrange(start, end - 1));
            assert(t.subrange(start, end - 1).drop_last() =~= t.subrange(start, end - 2));
            assert(t.subrange(start / 2, end / 2).drop_last() =~= t.subrange(start / 2, j));
            let rp = reduce(f, e, t.subrange(start, end - 2));
            assert(reduce(f, e, t.subrange(start, end - 1)) == f(rp, t[2 * j]));
            assert(reduce(f, e, t.subrange(start, end)) == f(f(rp, t[2 * j]), t[2 * j + 1]));
            assert(reduce(f, e, t.subrange(start / 2, end / 2)) == f(
                reduce(f, e, t.subrange(start / 2, j)),
                t[j],
            ));
            assert(f(f(rp, t[2 * j]), t[2 * j + 1]) == f(rp, f(t[2 * j], t[2 * j + 1])));
        }
    }
}

} // verus!
