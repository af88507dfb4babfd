//! Branch ranking: the order in which a compound task's valid branches are
//! offered to the search.

use crate::domain::{CompoundTask, Method, SelectionPolicy};
use crate::model::{evaluate_all, BranchCandidate, ModelState, PlanModel, SCORE_ONE};
use crate::state::PlanState;
use vstd::prelude::*;

verus! {

/// The indices below `k` of the methods that are valid in `s`, ascending.
pub open spec fn valid_below<M: PlanModel>(c: CompoundTask<M>, s: ModelState<M>, k: nat) -> Seq<u32>
    decreases k,
{
    if k == 0 {
        Seq::empty()
    } else if c.methods@[k - 1].valid(s) {
        valid_below(c, s, (k - 1) as nat).push((k - 1) as u32)
    } else {
        valid_below(c, s, (k - 1) as nat)
    }
}

/// The indices of the methods that are valid in `s`, ascending.
pub open spec fn valid_methods<M: PlanModel>(c: CompoundTask<M>, s: ModelState<M>) -> Seq<u32> {
    valid_below(c, s, c.methods@.len())
}

/// The utility of a method: its declared score, or 0.
pub open spec fn utility_of<M: PlanModel>(c: CompoundTask<M>, s: ModelState<M>, i: int) -> i64 {
    match c.methods@[i].utility {
        Some(f) => f.of(s),
        None => 0,
    }
}

/// The sampling weight of a method: its declared score, or one; a negative
/// score weighs nothing.
pub open spec fn weight_of<M: PlanModel>(c: CompoundTask<M>, s: ModelState<M>, i: int) -> u64 {
    let score = match c.methods@[i].utility {
        Some(f) => f.of(s),
        None => SCORE_ONE,
    };
    if score <= 0 {
        0
    } else {
        score as u64
    }
}

/// The position behind the last entry of `sorted[..k]` that scores at least
/// `score`.
pub open spec fn rank_slot(sorted: Seq<u32>, score_at: spec_fn(int) -> i64, score: i64, k: nat) -> nat
    decreases k,
{
    if k == 0 || score_at(sorted[k - 1] as int) >= score {
        k
    } else {
        rank_slot(sorted, score_at, score, (k - 1) as nat)
    }
}

/// The first `k` of `items`, highest score first; equal scores keep their
/// order.
pub open spec fn by_utility(items: Seq<u32>, score_at: spec_fn(int) -> i64, k: nat) -> Seq<u32>
    decreases k,
{
    if k == 0 {
        Seq::empty()
    } else {
        let sorted = by_utility(items, score_at, (k - 1) as nat);
        let item = items[k - 1];
        sorted.insert(
            rank_slot(sorted, score_at, score_at(item as int), sorted.len()) as int,
            item,
        )
    }
}

/// The state of the sampler's generator after one step.
pub open spec fn next_seed(rng: u64) -> u64 {
    rng.wrapping_add(0x9E37_79B9_7F4A_7C15)
}

/// The number that the sampler draws from a generator state.
pub open spec fn drawn(rng: u64) -> u64 {
    let a = (rng ^ (rng >> 30)).wrapping_mul(0xBF58_476D_1CE4_E5B9);
    let b = (a ^ (a >> 27)).wrapping_mul(0x94D0_49BB_1331_11EB);
    b ^ (b >> 31)
}

/// The total weight of the first `k` entries of `items`.
pub open spec fn weight_sum(items: Seq<u32>, weight_at: spec_fn(int) -> u64, k: nat) -> nat
    decreases k,
{
    if k == 0 {
        0
    } else {
        weight_sum(items, weight_at, (k - 1) as nat) + weight_at(items[k - 1] as int) as nat
    }
}

/// The first position at or after `k` whose running weight exceeds `r`; the
/// last position where none does.
pub open spec fn picked(items: Seq<u32>, weight_at: spec_fn(int) -> u64, r: nat, k: nat) -> nat
    decreases items.len() - k,
{
    if k + 1 >= items.len() {
        (items.len() - 1) as nat
    } else if r < weight_sum(items, weight_at, k + 1) {
        k
    } else {
        picked(items, weight_at, r, k + 1)
    }
}

/// `items` sampled without replacement, proportional to weight. Where no
/// weight is left, the rest follows in the given order.
pub open spec fn sampled(items: Seq<u32>, weight_at: spec_fn(int) -> u64, rng: u64) -> Seq<u32>
    decreases items.len(),
{
    let total = weight_sum(items, weight_at, items.len());
    if items.len() == 0 || total == 0 {
        items
    } else {
        let seed = next_seed(rng);
        let r = ((drawn(seed) >> 11) as nat * total) / 0x20_0000_0000_0000;
        let k = picked(items, weight_at, r, 0) as int;
        if 0 <= k < items.len() {
            seq![items[k]] + sampled(items.remove(k), weight_at, seed)
        } else {
            items
        }
    }
}

/// The valid entries among the first `k` that a ranker returned, each where it
/// came first.
pub open spec fn kept(ranked: Seq<u32>, valid: Seq<u32>, k: nat) -> Seq<u32>
    decreases k,
{
    if k == 0 {
        Seq::empty()
    } else {
        let before = kept(ranked, valid, (k - 1) as nat);
        if valid.contains(ranked[k - 1]) && !before.contains(ranked[k - 1]) {
            before.push(ranked[k - 1])
        } else {
            before
        }
    }
}

/// `order` with those of the first `k` valid entries appended that it lacks.
pub open spec fn completed(order: Seq<u32>, valid: Seq<u32>, k: nat) -> Seq<u32>
    decreases k,
{
    if k == 0 {
        order
    } else {
        let before = completed(order, valid, (k - 1) as nat);
        if order.contains(valid[k - 1]) {
            before
        } else {
            before.push(valid[k - 1])
        }
    }
}

/// The candidates that a ranker is offered.
pub open spec fn candidates_of<'a, M: PlanModel>(c: CompoundTask<M>, valid: Seq<u32>) -> Seq<
    BranchCandidate<'a>,
> {
    Seq::new(
        valid.len(),
        |k: int|
            BranchCandidate {
                index: valid[k],
                name: c.methods@[valid[k] as int].name,
                utility: None,
                subtasks: &c.methods@[valid[k] as int].subtasks,
            },
    )
}

/// The generator state that a choice point starts from.
pub open spec fn sample_seed<M: PlanModel>(c: CompoundTask<M>, seed: u64, nonce: u64) -> u64 {
    let identity = match c.type_id {
        Some(id) => id,
        None => 0,
    };
    seed ^ identity.wrapping_mul(0x9E37_79B9_7F4A_7C15) ^ nonce.wrapping_mul(
        0xBF58_476D_1CE4_E5B9,
    )
}

/// The order in which a task's valid branches are offered in `s`. `nonce` is
/// the choice point's position in the plan.
pub open spec fn ranked_methods<M: PlanModel>(
    c: CompoundTask<M>,
    s: ModelState<M>,
    nonce: u64,
) -> Seq<u32> {
    let valid = valid_methods(c, s);
    match c.policy {
        SelectionPolicy::FirstMatch => valid,
        SelectionPolicy::HighestUtility => by_utility(
            valid,
            |i: int| utility_of(c, s, i),
            valid.len(),
        ),
        SelectionPolicy::WeightedRandom { seed } => sampled(
            valid,
            |i: int| weight_of(c, s, i),
            sample_seed(c, seed, nonce),
        ),
        SelectionPolicy::Custom(ranker) => {
            let ranked = M::ranking(ranker, candidates_of(c, valid), s);
            completed(kept(ranked, valid, ranked.len()), valid, valid.len())
        },
    }
}

/// Whether `order` holds exactly the entries of `items`, each once.
pub open spec fn same_items(order: Seq<u32>, items: Seq<u32>) -> bool {
    &&& order.no_duplicates()
    &&& forall|i: u32| order.contains(i) <==> #[trigger] items.contains(i)
}

proof fn lemma_valid_below<M: PlanModel>(c: CompoundTask<M>, s: ModelState<M>, k: nat)
    requires
        k <= c.methods@.len() <= u32::MAX,
    ensures
        valid_below(c, s, k).len() <= k,
        valid_below(c, s, k).no_duplicates(),
        forall|i: u32|
            #[trigger] valid_below(c, s, k).contains(i) <==> i < k && c.methods@[i as int].valid(s),
    decreases k,
{
    if k > 0 {
        let before = valid_below(c, s, (k - 1) as nat);
        let all = valid_below(c, s, k);
        lemma_valid_below(c, s, (k - 1) as nat);
        if c.methods@[k - 1].valid(s) {
            let last = (k - 1) as u32;
            assert(!before.contains(last));
            assert forall|i: u32| #[trigger] all.contains(i) <==> i < k && c.methods@[i as int].valid(
                s,
            ) by {
                if before.contains(i) {
                    let j = before.index_of(i);
                    assert(all[j] == i);
                }
                if i == last {
                    assert(all[before.len() as int] == i);
                }
                if all.contains(i) && i != last {
                    let j = all.index_of(i);
                    assert(before[j] == i);
                }
            }
        }
    }
}

/// The valid methods are listed: those whose preconditions hold, each once.
pub proof fn lemma_valid_methods<M: PlanModel>(c: CompoundTask<M>, s: ModelState<M>)
    requires
        c.methods@.len() <= u32::MAX,
    ensures
        valid_methods(c, s).len() <= c.methods@.len(),
        valid_methods(c, s).no_duplicates(),
        forall|i: u32|
            #[trigger] valid_methods(c, s).contains(i) <==> i < c.methods@.len()
                && c.methods@[i as int].valid(s),
{
    lemma_valid_below(c, s, c.methods@.len());
}

proof fn lemma_insert_items(sorted: Seq<u32>, at: int, item: u32)
    requires
        0 <= at <= sorted.len(),
        sorted.no_duplicates(),
        !sorted.contains(item),
    ensures
        sorted.insert(at, item).no_duplicates(),
        forall|i: u32|
            #[trigger] sorted.insert(at, item).contains(i) <==> sorted.contains(i) || i == item,
{
    let after = sorted.insert(at, item);
    assert forall|i: u32| #[trigger] after.contains(i) <==> sorted.contains(i) || i == item by {
        if after.contains(i) {
            let j = after.index_of(i);
            if j < at {
                assert(sorted[j] == i);
            } else if j > at {
                assert(sorted[j - 1] == i);
            }
        }
        if sorted.contains(i) {
            let j = sorted.index_of(i);
            if j < at {
                assert(after[j] == i);
            } else {
                assert(after[j + 1] == i);
            }
        }
        if i == item {
            assert(after[at] == i);
        }
    }
    assert forall|a: int, b: int| 0 <= a < b < after.len() implies after[a] != after[b] by {
        if a == at {
            assert(after[b] == sorted[b - 1]);
        } else if b == at {
            assert(after[a] == sorted[a]);
        }
    }
}

proof fn lemma_rank_slot(sorted: Seq<u32>, score_at: spec_fn(int) -> i64, score: i64, k: nat)
    requires
        k <= sorted.len(),
    ensures
        rank_slot(sorted, score_at, score, k) <= k,
        forall|j: int|
            rank_slot(sorted, score_at, score, k) <= j < k ==> score_at(
                #[trigger] sorted[j] as int,
            ) < score,
        rank_slot(sorted, score_at, score, k) > 0 ==> score_at(
            sorted[rank_slot(sorted, score_at, score, k) - 1] as int,
        ) >= score,
    decreases k,
{
    if k > 0 && score_at(sorted[k - 1] as int) < score {
        lemma_rank_slot(sorted, score_at, score, (k - 1) as nat);
    }
}

/// Whether `order` lists its entries by descending score, entries of equal
/// score by ascending index.
pub open spec fn descends(order: Seq<u32>, score_at: spec_fn(int) -> i64) -> bool {
    forall|a: int, b: int|
        0 <= a < b < order.len() ==> score_at(#[trigger] order[a] as int) > score_at(
            #[trigger] order[b] as int,
        ) || (score_at(order[a] as int) == score_at(order[b] as int) && order[a] < order[b])
}

proof fn lemma_by_utility(items: Seq<u32>, score_at: spec_fn(int) -> i64, k: nat)
    requires
        k <= items.len(),
        forall|a: int, b: int| 0 <= a < b < items.len() ==> items[a] < items[b],
    ensures
        by_utility(items, score_at, k).len() == k,
        same_items(by_utility(items, score_at, k), items.take(k as int)),
        descends(by_utility(items, score_at, k), score_at),
    decreases k,
{
    if k > 0 {
        let before = by_utility(items, score_at, (k - 1) as nat);
        let prev = items.take(k - 1);
        let item = items[k - 1];
        lemma_by_utility(items, score_at, (k - 1) as nat);
        let at = rank_slot(before, score_at, score_at(item as int), before.len()) as int;
        lemma_rank_slot(before, score_at, score_at(item as int), before.len());
        assert(!before.contains(item)) by {
            if before.contains(item) {
                assert(prev.contains(item));
                let j = prev.index_of(item);
                assert(items[j] == item);
            }
        }
        lemma_insert_items(before, at, item);
        let now = before.insert(at, item);
        assert(items.take(k as int) =~= prev.push(item));
        assert forall|i: u32| now.contains(i) <==> #[trigger] items.take(k as int).contains(i) by {
            if prev.push(item).contains(i) && i != item {
                let j = prev.push(item).index_of(i);
                assert(prev[j] == i);
                assert(prev.contains(i));
            }
            if now.contains(i) {
                if i == item {
                    assert(prev.push(item)[k - 1] == i);
                } else {
                    assert(prev.contains(i));
                    let j = prev.index_of(i);
                    assert(prev.push(item)[j] == i);
                }
            }
        }
        assert forall|a: int, b: int| 0 <= a < b < now.len() implies score_at(
            #[trigger] now[a] as int,
        ) > score_at(#[trigger] now[b] as int) || (score_at(now[a] as int) == score_at(
            now[b] as int,
        ) && now[a] < now[b]) by {
            if b == at {
                assert(now[a] == before[a]);
                assert(before.contains(before[a]));
                assert(prev.contains(before[a]));
                let j = prev.index_of(before[a]);
                assert(items[j] == before[a]);
                if a < at - 1 {
                    assert(score_at(before[a] as int) >= score_at(before[at - 1] as int));
                }
            } else if a == at {
                assert(now[b] == before[b - 1]);
            } else {
                let a0 = if a < at { a } else { a - 1 };
                let b0 = if b < at { b } else { b - 1 };
                assert(now[a] == before[a0] && now[b] == before[b0]);
            }
        }
    }
}

proof fn lemma_valid_ascends<M: PlanModel>(c: CompoundTask<M>, s: ModelState<M>, k: nat)
    requires
        k <= c.methods@.len() <= u32::MAX,
    ensures
        forall|a: int, b: int|
            0 <= a < b < valid_below(c, s, k).len() ==> valid_below(c, s, k)[a] < valid_below(
                c,
                s,
                k,
            )[b],
    decreases k,
{
    if k > 0 {
        let before = valid_below(c, s, (k - 1) as nat);
        lemma_valid_ascends(c, s, (k - 1) as nat);
        lemma_valid_below(c, s, (k - 1) as nat);
        assert forall|a: int| 0 <= a < before.len() implies before[a] < k - 1 by {
            assert(before.contains(before[a]));
        }
    }
}

proof fn lemma_picked(items: Seq<u32>, weight_at: spec_fn(int) -> u64, r: nat, k: nat)
    requires
        k < items.len(),
    ensures
        k <= picked(items, weight_at, r, k) < items.len(),
    decreases items.len() - k,
{
    if k + 1 < items.len() && r >= weight_sum(items, weight_at, k + 1) {
        lemma_picked(items, weight_at, r, k + 1);
    }
}

proof fn lemma_sampled(items: Seq<u32>, weight_at: spec_fn(int) -> u64, rng: u64)
    requires
        items.no_duplicates(),
    ensures
        sampled(items, weight_at, rng).len() == items.len(),
        same_items(sampled(items, weight_at, rng), items),
    decreases items.len(),
{
    let total = weight_sum(items, weight_at, items.len());
    if items.len() > 0 && total > 0 {
        let seed = next_seed(rng);
        let r = ((drawn(seed) >> 11) as nat * total) / 0x20_0000_0000_0000;
        lemma_picked(items, weight_at, r, 0);
        let k = picked(items, weight_at, r, 0) as int;
        let rest = items.remove(k);
        let tail = sampled(rest, weight_at, seed);
        assert forall|i: u32| items.contains(i) <==> (#[trigger] rest.contains(i) || i == items[k]) by {
            if items.contains(i) && i != items[k] {
                let j = items.index_of(i);
                if j < k {
                    assert(rest[j] == i);
                } else {
                    assert(rest[j - 1] == i);
                }
            }
            if rest.contains(i) {
                let j = rest.index_of(i);
                if j < k {
                    assert(items[j] == i);
                } else {
                    assert(items[j + 1] == i);
                }
            }
        }
        assert(!rest.contains(items[k])) by {
            if rest.contains(items[k]) {
                let j = rest.index_of(items[k]);
                if j < k {
                    assert(items[j] == items[k]);
                } else {
                    assert(items[j + 1] == items[k]);
                }
            }
        }
        lemma_sampled(rest, weight_at, seed);
        let all = seq![items[k]] + tail;
        assert(sampled(items, weight_at, rng) == all);
        assert forall|i: u32| all.contains(i) <==> #[trigger] items.contains(i) by {
            assert(rest.contains(i) || !rest.contains(i));
            if all.contains(i) {
                let j = all.index_of(i);
                if j > 0 {
                    assert(tail[j - 1] == i);
                    assert(tail.contains(i));
                    assert(rest.contains(i));
                }
            }
            if items.contains(i) {
                if i == items[k] {
                    assert(all[0] == i);
                } else {
                    assert(rest.contains(i));
                    assert(tail.contains(i));
                    let j = tail.index_of(i);
                    assert(all[j + 1] == i);
                }
            }
        }
        assert forall|a: int, b: int| 0 <= a < b < all.len() implies all[a] != all[b] by {
            if a == 0 {
                assert(all[b] == tail[b - 1]);
                assert(tail.contains(tail[b - 1]));
                assert(rest.contains(tail[b - 1]));
            } else {
                assert(all[a] == tail[a - 1] && all[b] == tail[b - 1]);
            }
        }
    }
}

proof fn lemma_kept(ranked: Seq<u32>, valid: Seq<u32>, k: nat)
    requires
        k <= ranked.len(),
    ensures
        kept(ranked, valid, k).no_duplicates(),
        forall|i: u32| #[trigger] kept(ranked, valid, k).contains(i) ==> valid.contains(i),
    decreases k,
{
    if k > 0 {
        let before = kept(ranked, valid, (k - 1) as nat);
        let now = kept(ranked, valid, k);
        lemma_kept(ranked, valid, (k - 1) as nat);
        if now != before {
            assert forall|i: u32| #[trigger] now.contains(i) implies valid.contains(i) by {
                let j = now.index_of(i);
                if j < before.len() {
                    assert(before[j] == i);
                    assert(before.contains(i));
                }
            }
            assert forall|a: int, b: int| 0 <= a < b < now.len() implies now[a] != now[b] by {
                if b == before.len() {
                    assert(before.contains(before[a]));
                }
            }
        }
    }
}

proof fn lemma_completed(order: Seq<u32>, valid: Seq<u32>, k: nat)
    requires
        k <= valid.len(),
        order.no_duplicates(),
        valid.no_duplicates(),
    ensures
        completed(order, valid, k).no_duplicates(),
        forall|i: u32|
            #[trigger] completed(order, valid, k).contains(i) <==> order.contains(i) || valid.take(
                k as int,
            ).contains(i),
    decreases k,
{
    if k > 0 {
        let before = completed(order, valid, (k - 1) as nat);
        let now = completed(order, valid, k);
        let prev = valid.take(k - 1);
        let item = valid[k - 1];
        lemma_completed(order, valid, (k - 1) as nat);
        assert(valid.take(k as int) =~= prev.push(item));
        assert(!prev.contains(item)) by {
            if prev.contains(item) {
                let j = prev.index_of(item);
                assert(valid[j] == item);
            }
        }
        assert forall|i: u32| #[trigger] now.contains(i) <==> order.contains(i) || valid.take(
            k as int,
        ).contains(i) by {
            if valid.take(k as int).contains(i) && i != item {
                let j = prev.push(item).index_of(i);
                assert(prev[j] == i);
                assert(prev.contains(i));
            }
            if prev.contains(i) {
                let j = prev.index_of(i);
                assert(prev.push(item)[j] == i);
            }
            assert(prev.push(item)[k - 1] == item);
            assert(before.contains(i) <==> order.contains(i) || prev.contains(i));
            if now.contains(i) && now != before {
                let j = now.index_of(i);
                if j < before.len() {
                    assert(before[j] == i);
                }
            }
            if before.contains(i) {
                let j = before.index_of(i);
                assert(now[j] == i);
            }
            if i == item && !order.contains(item) {
                assert(now[before.len() as int] == i);
            }
        }
        if now != before {
            assert(!before.contains(item));
            assert forall|a: int, b: int| 0 <= a < b < now.len() implies now[a] != now[b] by {
                if b == before.len() {
                    assert(before.contains(before[a]));
                }
            }
        }
    }
}

/// No policy loses a branch or offers one twice: the ranked order holds
/// exactly the valid methods, each once.
pub proof fn ranking_keeps_every_valid_branch<M: PlanModel>(
    c: CompoundTask<M>,
    s: ModelState<M>,
    nonce: u64,
)
    requires
        c.methods@.len() <= u32::MAX,
    ensures
        ranked_methods(c, s, nonce).no_duplicates(),
        ranked_methods(c, s, nonce).len() <= c.methods@.len(),
        forall|i: u32|
            #[trigger] ranked_methods(c, s, nonce).contains(i) <==> i < c.methods@.len()
                && c.methods@[i as int].valid(s),
{
    let valid = valid_methods(c, s);
    let order = ranked_methods(c, s, nonce);
    lemma_valid_methods(c, s);
    match c.policy {
        SelectionPolicy::FirstMatch => {},
        SelectionPolicy::HighestUtility => {
            lemma_valid_ascends(c, s, c.methods@.len());
            lemma_by_utility(valid, |i: int| utility_of(c, s, i), valid.len());
            assert(valid.take(valid.len() as int) =~= valid);
        },
        SelectionPolicy::WeightedRandom { seed } => {
            lemma_sampled(valid, |i: int| weight_of(c, s, i), sample_seed(c, seed, nonce));
        },
        SelectionPolicy::Custom(ranker) => {
            let ranked = M::ranking(ranker, candidates_of(c, valid), s);
            lemma_kept(ranked, valid, ranked.len());
            let start = kept(ranked, valid, ranked.len());
            lemma_completed(start, valid, valid.len());
            assert(valid.take(valid.len() as int) =~= valid);
        },
    }
    assert forall|i: u32| #[trigger] order.contains(i) <==> i < c.methods@.len()
        && c.methods@[i as int].valid(s) by {
        assert(order.contains(i) <==> valid.contains(i));
    }
    assert(order.len() <= c.methods@.len()) by {
        order.unique_seq_to_set();
        valid.unique_seq_to_set();
        assert(order.to_set() =~= valid.to_set());
    }
}

/// Under the highest-utility policy the ranked order descends by utility, and
/// branches of equal utility keep their declaration order.
pub proof fn utility_order_descends<M: PlanModel>(c: CompoundTask<M>, s: ModelState<M>, nonce: u64)
    requires
        c.methods@.len() <= u32::MAX,
        c.policy is HighestUtility,
    ensures
        descends(ranked_methods(c, s, nonce), |i: int| utility_of(c, s, i)),
{
    lemma_valid_ascends(c, s, c.methods@.len());
    lemma_by_utility(valid_methods(c, s), |i: int| utility_of(c, s, i), valid_methods(c, s).len());
}

impl<M: PlanModel> Method<M> {
    /// The utility of the method, or `default` where none is declared.
    fn utility_in(&self, state: &PlanState<M::Component>, default: i64) -> (u: i64)
        ensures
            u == match self.utility {
                Some(f) => f.of(state@),
                None => default,
            },
    {
        match &self.utility {
            Some(f) => f.evaluate(state),
            None => default,
        }
    }
}

/// One step of the sampler's generator: advances the state and returns what it
/// draws.
fn splitmix64(rng: &mut u64) -> (z: u64)
    ensures
        *final(rng) == next_seed(*old(rng)),
        z == drawn(*final(rng)),
{
    *rng = rng.wrapping_add(0x9E37_79B9_7F4A_7C15);
    let z: u64 = *rng;
    let a: u64 = (z ^ (z >> 30)).wrapping_mul(0xBF58_476D_1CE4_E5B9);
    let b: u64 = (a ^ (a >> 27)).wrapping_mul(0x94D0_49BB_1331_11EB);
    b ^ (b >> 31)
}

/// Scales a 53-bit draw to a total: `draw * total / 2^53`.
fn scale(draw: u64, total: u128) -> (r: u128)
    requires
        draw < 0x20_0000_0000_0000,
        total < 0x1_0000_0000_0000_0000_0000_0000,
    ensures
        r == (draw as nat * total as nat) / 0x20_0000_0000_0000,
{
    let unit: u128 = 0x20_0000_0000_0000;
    let high: u128 = total / unit;
    let low: u128 = total % unit;
    let d: u128 = draw as u128;
    proof {
        assert(high < 0x1000_0000_0000) by (nonlinear_arith)
            requires
                high == total / unit,
                unit == 0x20_0000_0000_0000,
                total < 0x1_0000_0000_0000_0000_0000_0000,
        ;
        assert(d * high <= 0x20_0000_0000_0000 * 0x1000_0000_0000) by (nonlinear_arith)
            requires
                d <= 0x20_0000_0000_0000,
                high <= 0x1000_0000_0000,
        ;
        assert(d * low <= 0x20_0000_0000_0000 * 0x20_0000_0000_0000) by (nonlinear_arith)
            requires
                d <= 0x20_0000_0000_0000,
                low <= 0x20_0000_0000_0000,
        ;
        assert((d * low) / 0x20_0000_0000_0000 <= 0x20_0000_0000_0000) by (nonlinear_arith)
            requires
                d * low <= 0x20_0000_0000_0000 * 0x20_0000_0000_0000,
                0 <= d * low,
        ;
        assert((d * total as int) / 0x20_0000_0000_0000 == d * high + (d * low)
            / 0x20_0000_0000_0000) by (nonlinear_arith)
            requires
                total == 0x20_0000_0000_0000 * high + low,
                0 <= d,
                0 <= low,
                0 <= high,
        {
            assert(d * total as int == (d * high) * 0x20_0000_0000_0000 + d * low);
        }
    }
    d * high + (d * low) / unit
}

proof fn lemma_weight_sum_bound(items: Seq<u32>, weight_at: spec_fn(int) -> u64, k: nat)
    requires
        k <= items.len(),
    ensures
        weight_sum(items, weight_at, k) <= k * 0x1_0000_0000_0000_0000,
    decreases k,
{
    if k > 0 {
        lemma_weight_sum_bound(items, weight_at, (k - 1) as nat);
        assert((k - 1) * 0x1_0000_0000_0000_0000 + 0x1_0000_0000_0000_0000 == k
            * 0x1_0000_0000_0000_0000) by (nonlinear_arith);
    }
}

/// Samples `items` without replacement, proportional to the weights at the same
/// positions.
fn sample_weighted_order(
    items: Vec<u32>,
    weights: Vec<u64>,
    rng: &mut u64,
    out: &mut Vec<u32>,
    Ghost(weight_at): Ghost<spec_fn(int) -> u64>,
)
    requires
        items@.len() == weights@.len(),
        items@.len() <= u32::MAX,
        forall|k: int| 0 <= k < items@.len() ==> weights@[k] == weight_at(#[trigger] items@[k] as int),
    ensures
        final(out)@ == old(out)@ + sampled(items@, weight_at, *old(rng)),
{
    let mut remaining = items;
    let mut left = weights;
    proof {
        assert(remaining@ == items@);
    }
    while remaining.len() > 0
        invariant
            remaining@.len() == left@.len(),
            remaining@.len() <= u32::MAX,
            forall|k: int|
                0 <= k < remaining@.len() ==> left@[k] == weight_at(
                    #[trigger] remaining@[k] as int,
                ),
            out@ + sampled(remaining@, weight_at, *rng) == old(out)@ + sampled(
                items@,
                weight_at,
                *old(rng),
            ),
        decreases remaining@.len(),
    {
        let n: usize = remaining.len();
        let ghost rest = remaining@;
        let ghost seed0 = *rng;
        let ghost before = out@;
        let mut total: u128 = 0;
        for i in 0..n
            invariant
                n == remaining@.len() == left@.len(),
                n <= u32::MAX,
                rest == remaining@,
                forall|k: int|
                    0 <= k < remaining@.len() ==> left@[k] == weight_at(
                        #[trigger] remaining@[k] as int,
                    ),
                total == weight_sum(rest, weight_at, i as nat),
                total <= i * 0x1_0000_0000_0000_0000,
        {
            proof {
                lemma_weight_sum_bound(rest, weight_at, (i + 1) as nat);
                assert(left@[i as int] == weight_at(remaining@[i as int] as int));
            }
            total = total + left[i] as u128;
        }
        if total == 0 {
            let mut j: usize = 0;
            while j < n
                invariant
                    j <= n,
                    n == remaining@.len(),
                    rest == remaining@,
                    out@ == before + rest.take(j as int),
                decreases n - j,
            {
                out.push(remaining[j]);
                assert(rest.take(j + 1) =~= rest.take(j as int).push(rest[j as int]));
                assert(out@ =~= before + rest.take(j + 1));
                j = j + 1;
            }
            proof {
                assert(rest.take(n as int) =~= rest);
                assert(sampled(rest, weight_at, seed0) == rest);
            }
            return;
        }
        let z: u64 = splitmix64(rng);
        proof {
            assert((z >> 11) < 0x20_0000_0000_0000) by (bit_vector);
        }
        let r: u128 = scale(z >> 11, total);
        let mut acc: u128 = 0;
        let mut chosen: usize = 0;
        proof {
            lemma_picked(rest, weight_at, r as nat, 0);
        }
        // Walk the running weights up to the drawn one; the last entry takes
        // what is left.
        while chosen + 1 < n && r >= acc + left[chosen] as u128
            invariant
                chosen < n,
                n == remaining@.len() == left@.len(),
                n <= u32::MAX,
                rest == remaining@,
                forall|k: int|
                    0 <= k < remaining@.len() ==> left@[k] == weight_at(
                        #[trigger] remaining@[k] as int,
                    ),
                acc == weight_sum(rest, weight_at, chosen as nat),
                acc <= chosen * 0x1_0000_0000_0000_0000,
                picked(rest, weight_at, r as nat, 0) == picked(
                    rest,
                    weight_at,
                    r as nat,
                    chosen as nat,
                ),
            ensures
                chosen < n,
                picked(rest, weight_at, r as nat, 0) == chosen,
            decreases n - chosen,
        {
            proof {
                lemma_weight_sum_bound(rest, weight_at, (chosen + 1) as nat);
                assert(left@[chosen as int] == weight_at(remaining@[chosen as int] as int));
            }
            acc = acc + left[chosen] as u128;
            chosen = chosen + 1;
        }
        let item: u32 = remaining.remove(chosen);
        let _ = left.remove(chosen);
        out.push(item);
        proof {
            let tail = sampled(remaining@, weight_at, *rng);
            assert(sampled(rest, weight_at, seed0) == seq![item] + tail);
            assert(out@ + tail =~= before + (seq![item] + tail));
            assert forall|k: int| 0 <= k < remaining@.len() implies left@[k] == weight_at(
                #[trigger] remaining@[k] as int,
            ) by {
                if k < chosen {
                    assert(remaining@[k] == rest[k]);
                } else {
                    assert(remaining@[k] == rest[k + 1]);
                }
            }
        }
    }
    proof {
        assert(sampled(remaining@, weight_at, *rng) =~= Seq::empty());
        assert(out@ + sampled(remaining@, weight_at, *rng) =~= out@);
    }
}

/// Whether `v` holds `x`.
pub(crate) fn holds_u32(v: &Vec<u32>, x: u32) -> (b: bool)
    ensures
        b == v@.contains(x),
{
    for i in 0..v.len()
        invariant
            forall|k: int| 0 <= k < i ==> v@[k] != x,
    {
        if v[i] == x {
            return true;
        }
    }
    false
}

/// Keeps the valid entries that a ranker returned, each where it came first,
/// and appends the valid entries that it left out.
fn sanitize(ranked: &Vec<u32>, valid: &Vec<u32>) -> (order: Vec<u32>)
    ensures
        order@ == completed(kept(ranked@, valid@, ranked@.len()), valid@, valid@.len()),
{
    let mut order: Vec<u32> = Vec::new();
    for k in 0..ranked.len()
        invariant
            order@ == kept(ranked@, valid@, k as nat),
    {
        if holds_u32(valid, ranked[k]) && !holds_u32(&order, ranked[k]) {
            order.push(ranked[k]);
        }
    }
    let ghost start = order@;
    let n: usize = order.len();
    for k in 0..valid.len()
        invariant
            start == kept(ranked@, valid@, ranked@.len()),
            n == start.len(),
            n <= order@.len(),
            start == order@.take(n as int),
            order@ == completed(start, valid@, k as nat),
    {
        let mut known = false;
        for j in 0..n
            invariant
                n == start.len(),
                n <= order@.len(),
                start == order@.take(n as int),
                k < valid@.len(),
                known == start.take(j as int).contains(valid@[k as int]),
        {
            proof {
                let front = start.take(j as int);
                let longer = start.take(j + 1);
                assert(longer =~= front.push(start[j as int]));
                assert(start[j as int] == order@[j as int]);
                if front.contains(valid@[k as int]) {
                    let i = front.index_of(valid@[k as int]);
                    assert(longer[i] == valid@[k as int]);
                }
                if longer.contains(valid@[k as int]) && !front.contains(valid@[k as int]) {
                    let i = longer.index_of(valid@[k as int]);
                    if i < j {
                        assert(front[i] == valid@[k as int]);
                    }
                }
                assert(longer[j as int] == start[j as int]);
            }
            if order[j] == valid[k] {
                known = true;
            }
        }
        proof {
            assert(start.take(n as int) =~= start);
        }
        if !known {
            let ghost before = order@;
            order.push(valid[k]);
            assert(order@.take(n as int) =~= before.take(n as int));
        }
    }
    order
}

impl<M: PlanModel> CompoundTask<M> {
    /// Ranks the task's valid branches as its policy says: declaration indices
    /// in the order that the search should try them. `nonce` tells choice
    /// points apart for the weighted sampler.
    pub fn rank_valid_methods(&self, state: &PlanState<M::Component>, nonce: u64) -> (order: Vec<
        u32,
    >)
        requires
            self.methods@.len() <= u32::MAX,
            self.checks_fit(state@.len()),
        ensures
            order@ == ranked_methods(*self, state@, nonce),
    {
        let mut valid: Vec<u32> = Vec::new();
        for i in 0..self.methods.len()
            invariant
                self.methods@.len() <= u32::MAX,
                self.checks_fit(state@.len()),
                valid@ == valid_below(*self, state@, i as nat),
        {
            if evaluate_all(&self.methods[i].preconditions, state) {
                valid.push(i as u32);
            }
        }
        proof {
            lemma_valid_methods(*self, state@);
            assert forall|k: int| 0 <= k < valid@.len() implies (#[trigger] valid@[k])
                < self.methods@.len() by {
                assert(valid@.contains(valid@[k]));
            }
        }
        match &self.policy {
            SelectionPolicy::FirstMatch => valid,
            SelectionPolicy::HighestUtility => {
                let ghost score_at = |i: int| utility_of(*self, state@, i);
                let mut order: Vec<u32> = Vec::new();
                let mut scores: Vec<i64> = Vec::new();
                for k in 0..valid.len()
                    invariant
                        forall|j: int|
                            0 <= j < valid@.len() ==> (#[trigger] valid@[j]) < self.methods@.len(),
                        score_at == (|i: int| utility_of(*self, state@, i)),
                        order@ == by_utility(valid@, score_at, k as nat),
                        order@.len() == k,
                        scores@.len() == k,
                        forall|j: int|
                            0 <= j < order@.len() ==> scores@[j] == score_at(
                                #[trigger] order@[j] as int,
                            ),
                {
                    let item: u32 = valid[k];
                    let score: i64 = self.methods[item as usize].utility_in(state, 0);
                    let mut at: usize = order.len();
                    while at > 0 && scores[at - 1] < score
                        invariant
                            at <= order@.len(),
                            order@.len() == scores@.len(),
                            forall|j: int|
                                0 <= j < order@.len() ==> scores@[j] == score_at(
                                    #[trigger] order@[j] as int,
                                ),
                            rank_slot(order@, score_at, score, order@.len()) == rank_slot(
                                order@,
                                score_at,
                                score,
                                at as nat,
                            ),
                        decreases at,
                    {
                        assert(scores@[at - 1] == score_at(order@[at - 1] as int));
                        at = at - 1;
                    }
                    proof {
                        if at > 0 {
                            assert(scores@[at - 1] == score_at(order@[at - 1] as int));
                        }
                    }
                    let ghost before = order@;
                    let ghost before_scores = scores@;
                    order.insert(at, item);
                    scores.insert(at, score);
                    proof {
                        assert forall|j: int| 0 <= j < order@.len() implies scores@[j] == score_at(
                            #[trigger] order@[j] as int,
                        ) by {
                            if j < at {
                                assert(order@[j] == before[j]);
                            } else if j > at {
                                assert(order@[j] == before[j - 1]);
                                assert(scores@[j] == before_scores[j - 1]);
                            }
                        }
                    }
                }
                order
            },
            SelectionPolicy::WeightedRandom { seed } => {
                let ghost weight_at = |i: int| weight_of(*self, state@, i);
                let mut weights: Vec<u64> = Vec::new();
                for k in 0..valid.len()
                    invariant
                        forall|j: int|
                            0 <= j < valid@.len() ==> (#[trigger] valid@[j]) < self.methods@.len(),
                        weight_at == (|i: int| weight_of(*self, state@, i)),
                        weights@.len() == k,
                        forall|j: int|
                            0 <= j < k ==> weights@[j] == weight_at(#[trigger] valid@[j] as int),
                {
                    let score: i64 = self.methods[valid[k] as usize].utility_in(state, SCORE_ONE);
                    let weight: u64 = if score <= 0 {
                        0
                    } else {
                        score as u64
                    };
                    weights.push(weight);
                }
                let identity: u64 = match self.type_id {
                    Some(id) => id,
                    None => 0,
                };
                let mut rng: u64 = *seed ^ identity.wrapping_mul(0x9E37_79B9_7F4A_7C15)
                    ^ nonce.wrapping_mul(0xBF58_476D_1CE4_E5B9);
                let mut order: Vec<u32> = Vec::new();
                let ghost items = valid@;
                sample_weighted_order(valid, weights, &mut rng, &mut order, Ghost(weight_at));
                proof {
                    assert(order@ =~= sampled(
                        items,
                        weight_at,
                        sample_seed(*self, *seed, nonce),
                    ));
                }
                order
            },
            SelectionPolicy::Custom(ranker) => {
                let mut candidates: Vec<BranchCandidate<'_>> = Vec::new();
                for k in 0..valid.len()
                    invariant
                        forall|j: int|
                            0 <= j < valid@.len() ==> (#[trigger] valid@[j]) < self.methods@.len(),
                        candidates@ =~= candidates_of(*self, valid@).take(k as int),
                {
                    let m = &self.methods[valid[k] as usize];
                    candidates.push(
                        BranchCandidate {
                            index: valid[k],
                            name: m.name,
                            utility: None,
                            subtasks: &m.subtasks,
                        },
                    );
                    assert(candidates@ =~= candidates_of(*self, valid@).take(k + 1));
                }
                assert(candidates@ =~= candidates_of(*self, valid@));
                let ranked = M::rank(ranker, &candidates, state);
                sanitize(&ranked, &valid)
            },
        }
    }
}

/// Under the first-match policy the branches are offered in declaration order.
pub proof fn first_match_keeps_declaration_order<M: PlanModel>(
    c: CompoundTask<M>,
    s: ModelState<M>,
    nonce: u64,
    a: int,
    b: int,
)
    requires
        c.methods@.len() <= u32::MAX,
        c.policy is FirstMatch,
        0 <= a < b < ranked_methods(c, s, nonce).len(),
    ensures
        ranked_methods(c, s, nonce)[a] < ranked_methods(c, s, nonce)[b],
{
    lemma_valid_ascends(c, s, c.methods@.len());
}

proof fn lemma_kept_follows(ranked: Seq<u32>, valid: Seq<u32>, k: nat)
    requires
        k <= ranked.len(),
    ensures
        forall|i: int|
            0 <= i < k && valid.contains(#[trigger] ranked[i]) ==> kept(ranked, valid, k).contains(
                ranked[i],
            ),
        forall|x: u32| #[trigger]
            kept(ranked, valid, k).contains(x) ==> ranked.take(k as int).contains(x),
        forall|a: int, b: int|
            0 <= a < b < kept(ranked, valid, k).len() ==> comes_first(
                ranked,
                #[trigger] kept(ranked, valid, k)[a],
                #[trigger] kept(ranked, valid, k)[b],
            ),
    decreases k,
{
    if k > 0 {
        let before = kept(ranked, valid, (k - 1) as nat);
        let now = kept(ranked, valid, k);
        let x = ranked[k - 1];
        lemma_kept_follows(ranked, valid, (k - 1) as nat);
        let t = ranked.take(k as int);
        let t1 = ranked.take(k - 1);
        assert(t =~= t1.push(x));
        assert forall|y: u32| t1.contains(y) implies #[trigger] t.contains(y) by {
            let i = t1.index_of(y);
            assert(t[i] == y);
        }
        assert(t.contains(x)) by {
            assert(t[k - 1] == x);
        }
        assert forall|y: u32| before.contains(y) implies #[trigger] now.contains(y) by {
            let i = before.index_of(y);
            assert(now[i] == y);
        }
        assert forall|i: int|
            0 <= i < k && valid.contains(#[trigger] ranked[i]) implies now.contains(ranked[i]) by {
            if i == k - 1 && !before.contains(x) {
                assert(now[before.len() as int] == x);
            }
        }
        assert forall|y: u32| #[trigger] now.contains(y) implies t.contains(y) by {
            let i = now.index_of(y);
            if i < before.len() {
                assert(before[i] == y);
                assert(before.contains(y));
            }
        }
        assert forall|a: int, b: int| 0 <= a < b < now.len() implies comes_first(
            ranked,
            #[trigger] now[a],
            #[trigger] now[b],
        ) by {
            if b < before.len() {
                assert(comes_first(ranked, before[a], before[b]));
            } else {
                assert(before.contains(before[a]));
                let i = t1.index_of(before[a]);
                assert(t1.contains(before[a]));
                assert(ranked[i] == now[a]);
                assert forall|j: int| 0 <= j <= i implies #[trigger] ranked[j] != now[b] by {
                    if ranked[j] == x {
                        assert(before.contains(ranked[j]));
                    }
                }
            }
        }
    }
}

/// Whether a list names `a` before it ever names `b`.
pub open spec fn comes_first(list: Seq<u32>, a: u32, b: u32) -> bool {
    exists|i: int|
        0 <= i < list.len() && #[trigger] list[i] == a && forall|j: int|
            0 <= j <= i ==> #[trigger] list[j] != b
}

/// Under a ranker of the author's, the branches that it names come in its order,
/// each where it is first named; those that it leaves out come behind, in
/// declaration order.
pub proof fn rankers_are_followed<M: PlanModel>(
    c: CompoundTask<M>,
    s: ModelState<M>,
    nonce: u64,
    ranker: M::Ranker,
    ranked: Seq<u32>,
    a: int,
    b: int,
)
    requires
        c.methods@.len() <= u32::MAX,
        c.policy == SelectionPolicy::<M>::Custom(ranker),
        ranked == M::ranking(ranker, candidates_of(c, valid_methods(c, s)), s),
        0 <= a < b < ranked_methods(c, s, nonce).len(),
    ensures
        ({
            let x = ranked_methods(c, s, nonce)[a];
            let y = ranked_methods(c, s, nonce)[b];
            &&& ranked.contains(y) ==> ranked.contains(x) && comes_first(ranked, x, y)
            &&& !ranked.contains(x) ==> !ranked.contains(y) && x < y
        }),
{
    let valid = valid_methods(c, s);
    let start = kept(ranked, valid, ranked.len());
    let order = ranked_methods(c, s, nonce);
    lemma_kept_follows(ranked, valid, ranked.len());
    lemma_valid_ascends(c, s, c.methods@.len());
    lemma_valid_methods(c, s);
    lemma_completed_follows(start, valid, valid.len());
    ranking_keeps_every_valid_branch(c, s, nonce);
    assert(ranked.take(ranked.len() as int) =~= ranked);
    let n = start.len() as int;
    assert forall|i: int| 0 <= i < order.len() implies (i < n <==> ranked.contains(
        #[trigger] order[i],
    )) by {
        if i < n {
            assert(start.contains(start[i]));
        } else if ranked.contains(order[i]) {
            assert(order.contains(order[i]));
            let j = ranked.index_of(order[i]);
            assert(valid.contains(ranked[j]));
            assert(start.contains(ranked[j]));
            let h = start.index_of(ranked[j]);
            assert(order[h] == order[i]);
        }
    }
    if b < n {
        assert(comes_first(ranked, start[a], start[b]));
    }
}

proof fn lemma_completed_follows(order: Seq<u32>, valid: Seq<u32>, k: nat)
    requires
        k <= valid.len(),
        forall|a: int, b: int| 0 <= a < b < valid.len() ==> valid[a] < valid[b],
    ensures
        order.len() <= completed(order, valid, k).len(),
        forall|i: int| 0 <= i < order.len() ==> #[trigger] completed(order, valid, k)[i] == order[i],
        forall|a: int, b: int|
            order.len() <= a < b < completed(order, valid, k).len() ==> (#[trigger] completed(
                order,
                valid,
                k,
            )[a]) < (#[trigger] completed(order, valid, k)[b]),
        forall|a: int|
            order.len() <= a < completed(order, valid, k).len() ==> valid.take(k as int).contains(
                #[trigger] completed(order, valid, k)[a],
            ),
    decreases k,
{
    if k > 0 {
        lemma_completed_follows(order, valid, (k - 1) as nat);
        let before = completed(order, valid, (k - 1) as nat);
        let now = completed(order, valid, k);
        let t1 = valid.take(k - 1);
        let t = valid.take(k as int);
        assert(t =~= t1.push(valid[k - 1]));
        assert forall|y: u32| t1.contains(y) implies #[trigger] t.contains(y) by {
            let i = t1.index_of(y);
            assert(t[i] == y);
        }
        assert(t[k - 1] == valid[k - 1]);
        assert forall|a: int, b: int| order.len() <= a < b < now.len() implies (#[trigger] now[a])
            < (#[trigger] now[b]) by {
            if b == before.len() && now.len() > before.len() {
                assert(t1.contains(before[a]));
                let i = t1.index_of(before[a]);
                assert(valid[i] < valid[k - 1]);
            } else {
                assert(before[a] < before[b]);
            }
        }
        assert forall|a: int| order.len() <= a < now.len() implies t.contains(#[trigger] now[a]) by {
            if a < before.len() {
                assert(t1.contains(before[a]));
            }
        }
    }
}

proof fn lemma_picked_at(items: Seq<u32>, weight_at: spec_fn(int) -> u64, r: nat, k: nat)
    requires
        k < items.len(),
        weight_sum(items, weight_at, k) <= r < weight_sum(items, weight_at, items.len()),
    ensures
        ({
            let j = picked(items, weight_at, r, k);
            &&& k <= j < items.len()
            &&& weight_sum(items, weight_at, j) <= r < weight_sum(items, weight_at, j + 1)
        }),
    decreases items.len() - k,
{
    if k + 1 < items.len() && r >= weight_sum(items, weight_at, k + 1) {
        lemma_picked_at(items, weight_at, r, k + 1);
    }
}

proof fn lemma_weights_grow(items: Seq<u32>, weight_at: spec_fn(int) -> u64, i: nat, j: nat)
    requires
        i <= j,
    ensures
        weight_sum(items, weight_at, i) <= weight_sum(items, weight_at, j),
    decreases j,
{
    if i < j {
        lemma_weights_grow(items, weight_at, i, (j - 1) as nat);
    }
}

/// A draw picks in proportion to weight: of the draws below the total, an item is
/// picked for as many as it weighs, namely those from the weight of all before it
/// up to its own on top. So an item that weighs nothing is never picked.
pub proof fn draws_pick_by_weight(
    items: Seq<u32>,
    weight_at: spec_fn(int) -> u64,
    r: nat,
    i: nat,
)
    requires
        i < items.len(),
        r < weight_sum(items, weight_at, items.len()),
    ensures
        picked(items, weight_at, r, 0) == i <==> weight_sum(items, weight_at, i) <= r
            < weight_sum(items, weight_at, i) + weight_at(items[i as int] as int),
        weight_at(items[picked(items, weight_at, r, 0) as int] as int) > 0,
{
    lemma_picked_at(items, weight_at, r, 0);
    let j = picked(items, weight_at, r, 0);
    assert(weight_sum(items, weight_at, j + 1) == weight_sum(items, weight_at, j) + weight_at(
        items[j as int] as int,
    ) as nat);
    assert(weight_sum(items, weight_at, i + 1) == weight_sum(items, weight_at, i) + weight_at(
        items[i as int] as int,
    ) as nat);
    if j < i {
        lemma_weights_grow(items, weight_at, j + 1, i);
    } else if i < j {
        lemma_weights_grow(items, weight_at, i + 1, j);
    }
}

proof fn lemma_draw_below(rng: u64, total: nat)
    requires
        total > 0,
    ensures
        ((drawn(rng) >> 11) as nat * total) / 0x20_0000_0000_0000 < total,
{
    let x = drawn(rng);
    assert(x >> 11 < 0x20_0000_0000_0000) by (bit_vector);
    let y = (x >> 11) as nat;
    assert((y * total) / 0x20_0000_0000_0000 < total) by (nonlinear_arith)
        requires
            y < 0x20_0000_0000_0000,
            total > 0,
    ;
}

proof fn lemma_weightless(items: Seq<u32>, weight_at: spec_fn(int) -> u64, k: nat, i: int)
    requires
        0 <= i < k,
        weight_sum(items, weight_at, k) == 0,
    ensures
        weight_at(items[i] as int) == 0,
    decreases k,
{
    if i < k - 1 {
        lemma_weightless(items, weight_at, (k - 1) as nat, i);
    }
}

/// A sample puts weight first: no branch that weighs nothing comes before one that
/// weighs something, and those that weigh nothing keep their order.
pub proof fn samples_put_weight_first(
    items: Seq<u32>,
    weight_at: spec_fn(int) -> u64,
    rng: u64,
    a: int,
    b: int,
)
    requires
        items.no_duplicates(),
        0 <= a < b < sampled(items, weight_at, rng).len(),
        weight_at(sampled(items, weight_at, rng)[a] as int) == 0,
    ensures
        weight_at(sampled(items, weight_at, rng)[b] as int) == 0,
        comes_first(
            items,
            sampled(items, weight_at, rng)[a],
            sampled(items, weight_at, rng)[b],
        ),
    decreases items.len(),
{
    let total = weight_sum(items, weight_at, items.len());
    let order = sampled(items, weight_at, rng);
    lemma_sampled(items, weight_at, rng);
    if total == 0 {
        lemma_weightless(items, weight_at, items.len(), b);
        assert(items[a] == order[a]);
    } else {
        let seed = next_seed(rng);
        lemma_draw_below(seed, total);
        let r = ((drawn(seed) >> 11) as nat * total) / 0x20_0000_0000_0000;
        draws_pick_by_weight(items, weight_at, r, 0);
        lemma_picked(items, weight_at, r, 0);
        let k = picked(items, weight_at, r, 0) as int;
        let rest = items.remove(k);
        let tail = sampled(rest, weight_at, seed);
        assert(order =~= seq![items[k]] + tail);
        assert(a > 0);
        assert(order[a] == tail[a - 1] && order[b] == tail[b - 1]);
        assert(rest.no_duplicates());
        lemma_sampled(rest, weight_at, seed);
        samples_put_weight_first(rest, weight_at, seed, a - 1, b - 1);
        let (x, y) = (order[a], order[b]);
        let i = choose|i: int|
            0 <= i < rest.len() && #[trigger] rest[i] == x && forall|j: int|
                0 <= j <= i ==> #[trigger] rest[j] != y;
        let at = if i < k {
            i
        } else {
            i + 1
        };
        assert(items[at] == x);
        assert(y != items[k]);
        assert forall|j: int| 0 <= j <= at implies #[trigger] items[j] != y by {
            if j < k {
                assert(rest[j] == items[j]);
            } else if j > k {
                assert(rest[j - 1] == items[j]);
            }
        }
    }
}

/// What a branch scores: what it declares, as utility; and as weight the same, but
/// nothing where it declares less than nothing. Without a declaration it has no
/// utility, and weighs one.
pub proof fn scores_are_as_declared<M: PlanModel>(c: CompoundTask<M>, s: ModelState<M>, i: int)
    ensures
        c.methods@[i].utility matches Some(f) ==> {
            &&& utility_of(c, s, i) == f.of(s)
            &&& f.of(s) >= 0 ==> weight_of(c, s, i) == f.of(s)
            &&& f.of(s) < 0 ==> weight_of(c, s, i) == 0
        },
        c.methods@[i].utility is None ==> utility_of(c, s, i) == 0 && weight_of(c, s, i)
            == SCORE_ONE,
{
}

} // verus!
