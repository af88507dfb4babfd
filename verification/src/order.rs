//! Subtask ordering within a method, and the enumeration of the orders of a
//! partially-ordered member set.
//!
//! A method's members are either a **total order** (they run as declared) or a
//! **partially-ordered set**: the members run in any topological order of the
//! constraint graph, each exactly once. The planner commits to the first
//! topological order and, on failure further down, retries the same method
//! with the next one.
//!
//! Enumeration is deterministic (ascending member position at every choice),
//! so order 0 is the declaration order whenever that order is topological.
//! At most [`LINEARIZATION_CAP`] orders of a method are explored.

use smallvec::SmallVec;
use vstd::prelude::*;

verus! {

/// An execution order of a method's members: member positions, first to run
/// first. Held inline for small sets.
#[verifier::external_body]
#[derive(Debug, PartialEq, Eq)]
pub struct MemberOrder {
    members: SmallVec<[u8; 8]>,
}

/// The member positions that an order holds, in execution order.
pub uninterp spec fn members_of(order: MemberOrder) -> Seq<u8>;

impl MemberOrder {
    pub open spec fn view(&self) -> Seq<u8> {
        members_of(*self)
    }

    /// `SmallVec::new`: a vector that holds nothing.
    #[verifier::external_body]
    pub(crate) fn new() -> (order: MemberOrder)
        ensures
            members_of(order) == Seq::<u8>::empty(),
    {
        MemberOrder { members: SmallVec::new() }
    }

    /// `SmallVec::push`: appends one item behind those already held.
    #[verifier::external_body]
    pub(crate) fn push(&mut self, member: u8)
        ensures
            members_of(*final(self)) == members_of(*old(self)).push(member),
    {
        self.members.push(member)
    }

    /// `SmallVec::pop`: takes the last item off and returns it; `None`, and no
    /// change, where nothing is held.
    #[verifier::external_body]
    pub(crate) fn pop(&mut self) -> (last: Option<u8>)
        ensures
            match last {
                Some(member) => members_of(*old(self)) == members_of(*final(self)).push(member),
                None => members_of(*old(self)).len() == 0 && members_of(*final(self)) == members_of(
                    *old(self),
                ),
            },
    {
        self.members.pop()
    }

    /// `SmallVec::len`: the number of items held.
    #[verifier::external_body]
    fn count(&self) -> (n: usize)
        ensures
            n == members_of(*self).len(),
    {
        self.members.len()
    }

    /// Indexing a `SmallVec`: the item at `i`, counted from the front.
    #[verifier::external_body]
    pub(crate) fn get(&self, i: usize) -> (member: u8)
        requires
            i < members_of(*self).len(),
        ensures
            member == members_of(*self)[i as int],
    {
        self.members[i]
    }

    /// The number of members in the order.
    pub fn len(&self) -> (n: usize)
        ensures
            n == self@.len(),
    {
        self.count()
    }

    /// The members in a vector of their own.
    pub fn to_vec(&self) -> (v: Vec<u8>)
        ensures
            v@ == self@,
    {
        let n: usize = self.count();
        let mut v: Vec<u8> = Vec::new();
        for i in 0..n
            invariant
                n == self@.len(),
                v@ == self@.take(i as int),
        {
            v.push(self.get(i));
            assert(self@.take(i + 1) =~= self@.take(i as int).push(self@[i as int]));
        }
        assert(self@.take(n as int) =~= self@);
        v
    }
}

/// How a method's members are ordered.
#[derive(Debug, PartialEq)]
pub enum SubtaskOrder {
    /// Members run in declaration order.
    Total,
    /// Members run in any topological order of the constraint graph.
    Partial {
        /// Bit `q` set in `preds[p]`: member `q` completes before member `p`
        /// starts.
        preds: Vec<u64>,
        /// Number of topological orders, capped at [`LINEARIZATION_CAP`].
        orders: u32,
        /// The first topological order, which the planner pushes when it
        /// commits to the method.
        first: MemberOrder,
    },
}

impl SubtaskOrder {
    /// Whether the members are a partially-ordered set.
    pub fn is_partial(&self) -> (b: bool)
        ensures
            b == (self is Partial),
    {
        match self {
            SubtaskOrder::Partial { .. } => true,
            SubtaskOrder::Total => false,
        }
    }
}

impl Default for SubtaskOrder {
    fn default() -> (order: SubtaskOrder)
        ensures
            order is Total,
    {
        SubtaskOrder::Total
    }
}

/// Maximum number of linearizations explored per partially-ordered method.
pub const LINEARIZATION_CAP: usize = 64;

/// Whether bit `q` of `mask` is set.
pub open spec fn bit(mask: u64, q: int) -> bool {
    (mask >> (q as u64)) & 1 == 1
}

/// Whether member `p` can run next after `prefix`: it has not run yet, and all
/// its predecessors have.
pub open spec fn ready(preds: Seq<u64>, prefix: Seq<u8>, p: int) -> bool {
    &&& !prefix.contains(p as u8)
    &&& forall|q: int|
        0 <= q < 64 && #[trigger] bit(preds[p], q) ==> prefix.contains(q as u8)
}

/// Whether `order` runs every member exactly once, each after all its
/// predecessors.
pub open spec fn is_topo_order(preds: Seq<u64>, order: Seq<u8>) -> bool {
    &&& order.len() == preds.len()
    &&& forall|i: int|
        0 <= i < order.len() ==> (#[trigger] order[i]) < preds.len() && ready(
            preds,
            order.take(i),
            order[i] as int,
        )
}

/// The topological orders that begin with `prefix`, in enumeration order.
pub open spec fn completions(preds: Seq<u64>, prefix: Seq<u8>) -> Seq<Seq<u8>>
    decreases preds.len() - prefix.len(), preds.len() + 1,
{
    if prefix.len() >= preds.len() {
        seq![prefix]
    } else {
        completions_from(preds, prefix, 0)
    }
}

/// The topological orders that begin with `prefix` and run a member at
/// position `p` or above next, in enumeration order.
pub open spec fn completions_from(preds: Seq<u64>, prefix: Seq<u8>, p: int) -> Seq<Seq<u8>>
    decreases preds.len() - prefix.len(), preds.len() - p,
{
    if p < 0 || p >= preds.len() || prefix.len() >= preds.len() {
        Seq::empty()
    } else if ready(preds, prefix, p) {
        completions(preds, prefix.push(p as u8)) + completions_from(preds, prefix, p + 1)
    } else {
        completions_from(preds, prefix, p + 1)
    }
}

/// All topological orders of a constraint graph, in enumeration order. A set
/// without members has the empty order alone.
pub open spec fn topo_orders(preds: Seq<u64>) -> Seq<Seq<u8>> {
    completions(preds, Seq::empty())
}

/// What is still to be enumerated after `prefix`, from member `p` on.
spec fn remaining(preds: Seq<u64>, prefix: Seq<u8>, p: int) -> Seq<Seq<u8>>
    decreases prefix.len(),
{
    if prefix.len() == 0 {
        completions_from(preds, prefix, p)
    } else {
        completions_from(preds, prefix, p) + remaining(
            preds,
            prefix.drop_last(),
            prefix.last() + 1,
        )
    }
}

/// The number of enumeration steps below `prefix`, from member `p` on.
spec fn steps_from(preds: Seq<u64>, prefix: Seq<u8>, p: int) -> nat
    decreases preds.len() - prefix.len(), preds.len() - p,
{
    if p < 0 || p >= preds.len() || prefix.len() >= preds.len() {
        1
    } else if ready(preds, prefix, p) {
        1 + steps_from(preds, prefix.push(p as u8), 0) + steps_from(preds, prefix, p + 1)
    } else {
        1 + steps_from(preds, prefix, p + 1)
    }
}

/// The number of enumeration steps that are left.
spec fn steps_left(preds: Seq<u64>, prefix: Seq<u8>, p: int) -> nat
    decreases prefix.len(),
{
    if prefix.len() == 0 {
        steps_from(preds, prefix, p)
    } else {
        steps_from(preds, prefix, p) + steps_left(preds, prefix.drop_last(), prefix.last() + 1)
    }
}

/// A mask that is not zero has a set bit.
proof fn lemma_some_bit(mask: u64) -> (q: int)
    requires
        mask != 0,
    ensures
        0 <= q < 64,
        bit(mask, q),
    decreases mask,
{
    if mask & 1 == 1 {
        assert((mask >> 0) & 1 == 1) by (bit_vector)
            requires
                mask & 1 == 1,
        ;
        0
    } else {
        assert(mask & 1 != 1 && mask != 0 ==> (mask >> 1) != 0 && (mask >> 1) < mask)
            by (bit_vector);
        let r = lemma_some_bit(mask >> 1);
        let r64 = r as u64;
        assert(r64 < 64 && ((mask >> 1) >> r64) & 1 == 1 ==> r64 < 63 && (mask >> ((r64 + 1) as u64))
            & 1 == 1) by (bit_vector);
        r + 1
    }
}

/// `sub & !sup == 0` says that every bit of `sub` is a bit of `sup`.
proof fn lemma_submask(sub: u64, sup: u64)
    ensures
        (sub & !sup == 0) == (forall|q: int| 0 <= q < 64 && #[trigger] bit(sub, q) ==> bit(sup, q)),
{
    let rest = sub & !sup;
    if rest == 0 {
        assert forall|q: int| 0 <= q < 64 && #[trigger] bit(sub, q) implies bit(sup, q) by {
            let q64 = q as u64;
            assert(sub & !sup == 0 && q64 < 64 && (sub >> q64) & 1 == 1 ==> (sup >> q64) & 1 == 1)
                by (bit_vector);
        }
    } else {
        let q = lemma_some_bit(rest);
        let q64 = q as u64;
        assert(rest == sub & !sup && q64 < 64 && (rest >> q64) & 1 == 1 ==> (sub >> q64) & 1 == 1
            && (sup >> q64) & 1 != 1) by (bit_vector);
        assert(bit(sub, q) && !bit(sup, q));
    }
}

/// Setting and clearing bit `p` changes that bit alone.
proof fn lemma_bit_update(mask: u64, p: u8)
    requires
        p < 64,
    ensures
        forall|q: int|
            0 <= q < 64 ==> #[trigger] bit(mask | (1u64 << p), q) == (bit(mask, q) || q == p),
        forall|q: int|
            0 <= q < 64 ==> #[trigger] bit(mask & !(1u64 << p), q) == (bit(mask, q) && q != p),
        (mask & (1u64 << p) == 0) == !bit(mask, p as int),
{
    assert forall|q: int| 0 <= q < 64 implies #[trigger] bit(mask | (1u64 << p), q) == (bit(
        mask,
        q,
    ) || q == p) by {
        let q64 = q as u64;
        assert(q64 < 64 && p < 64 ==> ((((mask | (1u64 << p)) >> q64) & 1 == 1) == (((mask >> q64)
            & 1 == 1) || q64 == p))) by (bit_vector);
    }
    assert forall|q: int| 0 <= q < 64 implies #[trigger] bit(mask & !(1u64 << p), q) == (bit(
        mask,
        q,
    ) && q != p) by {
        let q64 = q as u64;
        assert(q64 < 64 && p < 64 ==> ((((mask & !(1u64 << p)) >> q64) & 1 == 1) == (((mask >> q64)
            & 1 == 1) && q64 != p))) by (bit_vector);
    }
    let p64 = p as u64;
    assert(p < 64 && p64 == p ==> ((mask & (1u64 << p) == 0) == !((mask >> p64) & 1 == 1)))
        by (bit_vector);
}

/// Choosing a ready member moves what is left below it to the front.
proof fn lemma_descend(preds: Seq<u64>, prefix: Seq<u8>, p: u8)
    requires
        p < preds.len(),
        prefix.len() < preds.len(),
        ready(preds, prefix, p as int),
    ensures
        prefix.len() + 1 < preds.len() ==> remaining(preds, prefix, p as int) == remaining(
            preds,
            prefix.push(p),
            0,
        ),
        steps_left(preds, prefix.push(p), 0) < steps_left(preds, prefix, p as int),
{
    let longer = prefix.push(p);
    assert(longer.drop_last() =~= prefix);
    assert(longer.last() == p);
    assert(remaining(preds, longer, 0) == completions_from(preds, longer, 0) + remaining(
        preds,
        prefix,
        p + 1,
    ));
    assert(steps_left(preds, longer, 0) == steps_from(preds, longer, 0) + steps_left(
        preds,
        prefix,
        p + 1,
    ));
    if prefix.len() + 1 < preds.len() {
        assert(completions(preds, longer) == completions_from(preds, longer, 0));
        assert(prefix.push(p as int as u8) == longer);
        assert(completions_from(preds, prefix, p as int) == completions_from(preds, longer, 0)
            + completions_from(preds, prefix, p + 1));
        assert(remaining(preds, prefix, p as int) =~= remaining(preds, longer, 0));
    }
}

/// Enumerates the topological orders of `preds` (bit `q` in `preds[p]`: `q`
/// before `p`) up to the one at index `stop`: the ready member with the lowest
/// position is chosen first at every step. Returns the order at `stop`, where
/// there is one, and the number of orders enumerated before it.
fn each_topo_order(preds: &[u64], stop: usize) -> (r: (Option<MemberOrder>, usize))
    requires
        preds@.len() <= 64,
    ensures
        match r.0 {
            Some(order) => stop < topo_orders(preds@).len() && order@ == topo_orders(
                preds@,
            )[stop as int] && r.1 == stop,
            None => topo_orders(preds@).len() <= stop && r.1 == topo_orders(preds@).len(),
        },
{
    let n: usize = preds.len();
    let mut used: u64 = 0;
    let mut order = MemberOrder::new();
    if n == 0 {
        assert(topo_orders(preds@) =~= seq![order@]);
        return if stop == 0 {
            (Some(order), 0)
        } else {
            (None, 1)
        };
    }
    let mut cursor: u8 = 0;
    let mut seen: usize = 0;
    let ghost mut done: Seq<Seq<u8>> = Seq::empty();
    proof {
        assert(topo_orders(preds@) =~= done + remaining(preds@, order@, 0));
        assert forall|q: int| 0 <= q < 64 implies !(#[trigger] bit(0, q)) by {
            let q64 = q as u64;
            assert(q64 < 64 ==> (0u64 >> q64) & 1 != 1) by (bit_vector);
        }
    }
    loop
        invariant
            n == preds@.len() <= 64,
            cursor <= n,
            order@.len() < n,
            forall|i: int| 0 <= i < order@.len() ==> (#[trigger] order@[i]) < n,
            forall|i: int, j: int| 0 <= i < j < order@.len() ==> order@[i] != order@[j],
            forall|q: int| 0 <= q < 64 ==> #[trigger] bit(used, q) == order@.contains(q as u8),
            seen == done.len(),
            seen <= stop,
            topo_orders(preds@) == done + remaining(preds@, order@, cursor as int),
        decreases steps_left(preds@, order@, cursor as int),
    {
        let ghost prefix = order@;
        let ghost at = cursor as int;
        if (cursor as usize) < n {
            proof {
                lemma_bit_update(used, cursor);
                lemma_submask(preds@[cursor as int], used);
                assert(ready(preds@, prefix, at) == (!bit(used, at) && forall|q: int|
                    0 <= q < 64 && #[trigger] bit(preds@[at], q) ==> bit(used, q)));
                assert(prefix.push(cursor).drop_last() =~= prefix);
            }
            if used & (1u64 << cursor) == 0 && preds[cursor as usize] & !used == 0 {
                if order.count() + 1 == n {
                    order.push(cursor);
                    proof {
                        assert(completions(preds@, prefix.push(cursor)) =~= seq![
                            prefix.push(cursor),
                        ]);
                        assert(remaining(preds@, prefix, at) =~= seq![prefix.push(cursor)]
                            + remaining(preds@, prefix, at + 1));
                        assert(topo_orders(preds@)[seen as int] == prefix.push(cursor));
                    }
                    if seen == stop {
                        return (Some(order), seen);
                    }
                    let _ = order.pop();
                    proof {
                        assert(order@ =~= prefix);
                        let visited = done.push(prefix.push(cursor));
                        assert(done + (seq![prefix.push(cursor)] + remaining(
                            preds@,
                            prefix,
                            at + 1,
                        )) =~= visited + remaining(preds@, prefix, at + 1));
                        done = visited;
                    }
                    seen = seen + 1;
                    cursor = cursor + 1;
                } else {
                    proof {
                        lemma_descend(preds@, prefix, cursor);
                        assert forall|q: int| #![trigger bit(used, q)] 0 <= q < 64 implies prefix.push(
                            cursor,
                        ).contains(q as u8) == (prefix.contains(q as u8) || q == cursor) by {
                            if q == cursor {
                                assert(prefix.push(cursor)[prefix.len() as int] == cursor);
                            } else if prefix.contains(q as u8) {
                                let i = prefix.index_of(q as u8);
                                assert(prefix.push(cursor)[i] == q as u8);
                            }
                        }
                    }
                    used = used | (1u64 << cursor);
                    order.push(cursor);
                    cursor = 0;
                }
            } else {
                cursor = cursor + 1;
            }
        } else {
            match order.pop() {
                None => {
                    proof {
                        assert(remaining(preds@, prefix, at) =~= Seq::empty());
                    }
                    return (None, seen);
                },
                Some(p) => {
                    proof {
                        assert(prefix[prefix.len() - 1] == p);
                        assert(prefix.drop_last() =~= order@);
                        lemma_bit_update(used, p);
                        assert forall|q: int| #![trigger bit(used, q)] 0 <= q < 64 implies order@.contains(
                            q as u8,
                        ) == (prefix.contains(q as u8) && q != p) by {
                            if order@.contains(q as u8) {
                                let i = order@.index_of(q as u8);
                                assert(prefix[i] == q as u8);
                            } else if prefix.contains(q as u8) && q != p {
                                let i = prefix.index_of(q as u8);
                                assert(order@[i] == q as u8);
                            }
                        }
                        assert(remaining(preds@, prefix, at) =~= remaining(
                            preds@,
                            order@,
                            p as int + 1,
                        ));
                    }
                    used = used & !(1u64 << p);
                    cursor = p + 1;
                },
            }
        }
    }
}

/// The topological order of `preds` at index `k`, or `None` when there are no
/// more than `k` orders.
pub fn linearize(preds: &[u64], k: usize) -> (order: Option<MemberOrder>)
    requires
        preds@.len() <= 64,
    ensures
        match order {
            Some(o) => k < topo_orders(preds@).len() && o@ == topo_orders(preds@)[k as int],
            None => topo_orders(preds@).len() <= k,
        },
{
    each_topo_order(preds, k).0
}

/// The number of topological orders of `preds`, capped at `cap`: a count equal
/// to `cap` means at least `cap` orders. Under any other cap than 0, zero means
/// that the constraints are cyclic.
pub fn topo_order_count(preds: &[u64], cap: usize) -> (count: usize)
    requires
        preds@.len() <= 64,
    ensures
        count == vstd::math::min(topo_orders(preds@).len() as int, cap as int),
{
    if cap == 0 {
        return 0;
    }
    let (found, seen) = each_topo_order(preds, cap - 1);
    match found {
        Some(_) => seen + 1,
        None => seen,
    }
}

/// Whether `prefix` is the start of an execution: distinct member positions,
/// each ready when it runs.
spec fn is_prefix_order(preds: Seq<u64>, prefix: Seq<u8>) -> bool {
    &&& prefix.len() <= preds.len()
    &&& forall|i: int|
        0 <= i < prefix.len() ==> (#[trigger] prefix[i]) < preds.len() && ready(
            preds,
            prefix.take(i),
            prefix[i] as int,
        )
}

proof fn lemma_prefix_push(preds: Seq<u64>, prefix: Seq<u8>, p: int)
    requires
        is_prefix_order(preds, prefix),
        prefix.len() < preds.len() <= 64,
        0 <= p < preds.len(),
        ready(preds, prefix, p),
    ensures
        is_prefix_order(preds, prefix.push(p as u8)),
{
    let longer = prefix.push(p as u8);
    assert forall|i: int| 0 <= i < longer.len() implies (#[trigger] longer[i]) < preds.len()
        && ready(preds, longer.take(i), longer[i] as int) by {
        if i < prefix.len() {
            assert(longer.take(i) =~= prefix.take(i));
        } else {
            assert(longer.take(i) =~= prefix);
        }
    }
}

/// Every enumerated completion is a topological order that begins with the
/// prefix and continues at `p` or above.
proof fn lemma_completions_sound(preds: Seq<u64>, prefix: Seq<u8>, p: int, k: int)
    requires
        preds.len() <= 64,
        is_prefix_order(preds, prefix),
        0 <= p,
        0 <= k < completions_from(preds, prefix, p).len(),
    ensures
        prefix.len() < preds.len(),
        is_topo_order(preds, completions_from(preds, prefix, p)[k]),
        completions_from(preds, prefix, p)[k].take(prefix.len() as int) == prefix,
        completions_from(preds, prefix, p)[k][prefix.len() as int] >= p,
    decreases preds.len() - prefix.len(), preds.len() - p,
{
    let longer = prefix.push(p as u8);
    let all = completions_from(preds, prefix, p);
    if ready(preds, prefix, p) {
        let below = completions(preds, longer);
        if k < below.len() {
            lemma_prefix_push(preds, prefix, p);
            if longer.len() < preds.len() {
                lemma_completions_sound(preds, longer, 0, k);
                assert(all[k] == below[k]);
                assert(all[k].take(longer.len() as int) == longer);
                assert(all[k].take(prefix.len() as int) =~= all[k].take(longer.len() as int).take(
                    prefix.len() as int,
                ));
                assert(longer.take(prefix.len() as int) =~= prefix);
                assert(all[k][prefix.len() as int] == longer[prefix.len() as int]);
            } else {
                assert(all[k] == longer);
                assert(longer.take(prefix.len() as int) =~= prefix);
            }
        } else {
            lemma_completions_sound(preds, prefix, p + 1, k - below.len());
            assert(all[k] == completions_from(preds, prefix, p + 1)[k - below.len()]);
        }
    } else {
        lemma_completions_sound(preds, prefix, p + 1, k);
    }
}

/// Every topological order that begins with the prefix and continues at `p` or
/// above is enumerated.
proof fn lemma_completions_all(
    preds: Seq<u64>,
    prefix: Seq<u8>,
    p: int,
    order: Seq<u8>,
) -> (k: int)
    requires
        preds.len() <= 64,
        is_topo_order(preds, order),
        prefix.len() < preds.len(),
        order.take(prefix.len() as int) == prefix,
        0 <= p <= order[prefix.len() as int],
    ensures
        0 <= k < completions_from(preds, prefix, p).len(),
        completions_from(preds, prefix, p)[k] == order,
    decreases preds.len() - prefix.len(), preds.len() - p,
{
    let next = order[prefix.len() as int] as int;
    assert(order[prefix.len() as int] < preds.len());
    if next == p {
        assert(ready(preds, prefix, p));
        let longer = prefix.push(p as u8);
        assert(order.take(longer.len() as int) =~= longer);
        if longer.len() < preds.len() {
            let k = lemma_completions_all(preds, longer, 0, order);
            assert(completions(preds, longer)[k] == order);
            k
        } else {
            assert(order =~= longer);
            assert(completions(preds, longer)[0] == order);
            0
        }
    } else {
        let k = lemma_completions_all(preds, prefix, p + 1, order);
        if ready(preds, prefix, p) {
            let below = completions(preds, prefix.push(p as u8));
            assert((below + completions_from(preds, prefix, p + 1))[below.len() + k] == order);
            below.len() + k
        } else {
            k
        }
    }
}

/// Whether `a` comes before `b` in lexicographic order of member positions.
pub open spec fn lex_before(a: Seq<u8>, b: Seq<u8>) -> bool {
    exists|i: int|
        0 <= i < a.len() && i < b.len() && a.take(i) == b.take(i) && (#[trigger] a[i]) < b[i]
}

proof fn lemma_completions_ascend(preds: Seq<u64>, prefix: Seq<u8>, p: int, j: int, k: int)
    requires
        preds.len() <= 64,
        is_prefix_order(preds, prefix),
        0 <= p,
        0 <= j < k < completions_from(preds, prefix, p).len(),
    ensures
        lex_before(
            completions_from(preds, prefix, p)[j],
            completions_from(preds, prefix, p)[k],
        ),
    decreases preds.len() - prefix.len(), preds.len() - p,
{
    let all = completions_from(preds, prefix, p);
    if ready(preds, prefix, p) {
        let longer = prefix.push(p as u8);
        let below = completions(preds, longer);
        let rest = completions_from(preds, prefix, p + 1);
        if k < below.len() {
            lemma_prefix_push(preds, prefix, p);
            assert(longer.len() < preds.len());
            lemma_completions_ascend(preds, longer, 0, j, k);
        } else if j >= below.len() {
            lemma_completions_ascend(preds, prefix, p + 1, j - below.len(), k - below.len());
        } else {
            lemma_completions_sound(preds, prefix, p, j);
            lemma_completions_sound(preds, prefix, p + 1, k - below.len());
            assert(all[k] == rest[k - below.len()]);
            lemma_prefix_push(preds, prefix, p);
            if longer.len() < preds.len() {
                lemma_completions_sound(preds, longer, 0, j);
                assert(all[j].take(longer.len() as int)[prefix.len() as int] == p as u8);
            } else {
                assert(all[j] == longer);
            }
            assert(all[j][prefix.len() as int] < all[k][prefix.len() as int]);
        }
    } else {
        lemma_completions_ascend(preds, prefix, p + 1, j, k);
    }
}

/// The enumeration holds the topological orders and nothing else: every entry
/// is one, and every one is an entry.
pub proof fn orders_are_the_topological_orders(preds: Seq<u64>, order: Seq<u8>)
    requires
        preds.len() <= 64,
    ensures
        topo_orders(preds).contains(order) == is_topo_order(preds, order),
{
    if preds.len() == 0 {
        assert(topo_orders(preds) =~= seq![Seq::<u8>::empty()]);
        assert(topo_orders(preds)[0] == Seq::<u8>::empty());
        if is_topo_order(preds, order) {
            assert(order =~= Seq::empty());
        }
        return;
    }
    if topo_orders(preds).contains(order) {
        let k = topo_orders(preds).index_of(order);
        lemma_completions_sound(preds, Seq::empty(), 0, k);
    }
    if is_topo_order(preds, order) {
        assert(order.take(0) =~= Seq::empty());
        let k = lemma_completions_all(preds, Seq::empty(), 0, order);
        assert(topo_orders(preds)[k] == order);
    }
}

/// The enumeration ascends lexicographically, so no order comes twice.
pub proof fn orders_ascend(preds: Seq<u64>, j: int, k: int)
    requires
        preds.len() <= 64,
        0 <= j < k < topo_orders(preds).len(),
    ensures
        lex_before(topo_orders(preds)[j], topo_orders(preds)[k]),
        topo_orders(preds)[j] != topo_orders(preds)[k],
{
    lemma_completions_ascend(preds, Seq::empty(), 0, j, k);
}

/// No order is enumerated exactly where the constraints leave no complete
/// order.
pub proof fn no_orders_iff_cyclic(preds: Seq<u64>)
    requires
        preds.len() <= 64,
    ensures
        topo_orders(preds).len() == 0 <==> (forall|order: Seq<u8>|
            !#[trigger] is_topo_order(preds, order)),
{
    if topo_orders(preds).len() > 0 {
        assert(topo_orders(preds).contains(topo_orders(preds)[0]));
        orders_are_the_topological_orders(preds, topo_orders(preds)[0]);
    } else {
        assert forall|order: Seq<u8>| !#[trigger] is_topo_order(preds, order) by {
            if is_topo_order(preds, order) {
                orders_are_the_topological_orders(preds, order);
            }
        }
    }
}

/// The declaration order of `n` members.
pub open spec fn declaration_order(n: nat) -> Seq<u8> {
    Seq::new(n, |i: int| i as u8)
}

/// Order 0 is the declaration order whenever the declaration order is
/// topological.
pub proof fn declaration_order_comes_first(preds: Seq<u64>)
    requires
        preds.len() <= 64,
        is_topo_order(preds, declaration_order(preds.len())),
    ensures
        topo_orders(preds).len() > 0,
        topo_orders(preds)[0] == declaration_order(preds.len()),
{
    let decl = declaration_order(preds.len());
    orders_are_the_topological_orders(preds, decl);
    let k = topo_orders(preds).index_of(decl);
    if k > 0 {
        orders_ascend(preds, 0, k);
        let first = topo_orders(preds)[0];
        lemma_completions_sound(preds, Seq::empty(), 0, 0);
        let i = choose|i: int|
            0 <= i < first.len() && i < decl.len() && first.take(i) == decl.take(i)
                && (#[trigger] first[i]) < decl[i];
        let repeated = first[i];
        assert(ready(preds, first.take(i), repeated as int));
        assert(decl.take(i)[repeated as int] == repeated);
        assert(first.take(i).contains(repeated));
        assert(false);
    }
}

} // verus!
