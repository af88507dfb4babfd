//! Recording task functions: every function that the root reaches is asked for
//! its declarations once, and these are compiled against the component slots.

use crate::domain::SelectionPolicy;
use crate::model::{
    all_fit, effects_fit, CompiledCheck, Effect, EffectBody, ModelState, PlanModel, Precondition,
    ScoreFn,
};
use crate::state::{
    gather, in_range, registered, registered_at, registering_moves_no_slot, slot_from, slot_of,
    RegistryBuilder, SlotInfo, SlotKey,
};
use crate::tasks::{CheckDecl, EffectDecl, MemberDecl, MethodBuilder, Param, TaskBuilder};
use std::collections::VecDeque;
use ustr::Ustr;
use vstd::prelude::*;

verus! {

/// What a method's member refers to: a task function, or a task that a
/// transformation made up.
#[derive(Clone, Copy, Debug, PartialEq, Eq, Structural)]
pub enum SubtaskRef {
    /// The task function with this identity.
    Fn(u64),
    /// The made-up task with this number.
    Synthetic(u32),
}

/// A recorded member of a branch.
#[derive(Clone, Copy, Debug)]
pub struct MemberProto {
    /// What it refers to.
    pub task: SubtaskRef,
    /// The name it is referenced by.
    pub name: Ustr,
    /// Whether it runs after every member declared before it.
    pub chained: bool,
}

/// A recorded branch.
pub struct MethodProto<M: PlanModel> {
    /// The branch's name, if any.
    pub name: Option<Ustr>,
    /// The branch's utility, if any.
    pub utility: Option<ScoreFn<M>>,
    /// The branch's preconditions.
    pub preconditions: Vec<Precondition<M>>,
    /// The branch's members, in declaration order.
    pub subtasks: Vec<MemberProto>,
    /// Whether some member is unordered.
    pub unordered: bool,
    /// Pairs of member positions, the first to complete before the second starts.
    pub edges: Vec<(u32, u32)>,
    /// Where the plan pauses.
    pub pause_positions: Vec<u32>,
}

/// A recorded task.
pub enum TaskProto<M: PlanModel> {
    /// A compound task.
    Compound {
        /// Its branches.
        methods: Vec<MethodProto<M>>,
        /// How its valid branches are ranked.
        policy: SelectionPolicy<M>,
    },
    /// A primitive task.
    Primitive {
        /// Its preconditions.
        preconditions: Vec<Precondition<M>>,
        /// Its effects.
        effects: Vec<Effect<M>>,
        /// Its anticipated effects.
        expected_effects: Vec<Effect<M>>,
        /// Its action.
        action: Option<M::Action>,
        /// Its cost.
        cost: Option<ScoreFn<M>>,
    },
}

/// A recorded task with its identity and name.
pub struct TaskEntry<M: PlanModel> {
    /// What members refer to it by.
    pub id: SubtaskRef,
    /// Its name.
    pub name: Ustr,
    /// What was recorded.
    pub proto: TaskProto<M>,
}

/// The recording of a domain.
pub struct Recorder<M: PlanModel> {
    /// The component slots so far.
    pub registry: RegistryBuilder,
    /// The tasks recorded so far, in discovery order.
    pub tasks: Vec<TaskEntry<M>>,
    /// Referenced task functions that may not be recorded yet.
    pub queue: VecDeque<(u64, Ustr)>,
    /// The authoring errors so far.
    pub errors: Vec<String>,
    /// Effects that name a component type twice, one entry each.
    pub effect_errors: Vec<String>,
    /// The number of made-up tasks so far.
    pub next_synthetic: u32,
    /// The task functions to share, in request order.
    pub shares: Vec<u64>,
    /// The task functions to offer for insertion, in request order.
    pub insertables: Vec<u64>,
    /// Whether task insertion is compiled in.
    pub insertion: bool,
    /// The additional roots.
    pub extra_roots: Vec<u64>,
}

/// Whether one list of slots starts with another.
pub open spec fn extends(longer: Seq<SlotInfo>, shorter: Seq<SlotInfo>) -> bool {
    &&& shorter.len() <= longer.len()
    &&& forall|i: int| 0 <= i < shorter.len() ==> longer[i] == #[trigger] shorter[i]
}

/// A slot keeps its index as slots are added.
pub proof fn lemma_slot_stays(longer: Seq<SlotInfo>, shorter: Seq<SlotInfo>, key: SlotKey, k: nat)
    requires
        extends(longer, shorter),
        slot_from(shorter, key, k) is Some,
    ensures
        slot_from(longer, key, k) == slot_from(shorter, key, k),
    decreases shorter.len() - k,
{
    assert(longer[k as int] == shorter[k as int]);
    if shorter[k as int].key != key {
        lemma_slot_stays(longer, shorter, key, k + 1);
    }
}

proof fn lemma_slot_pushed(slots: Seq<SlotInfo>, info: SlotInfo, k: nat)
    requires
        k <= slots.len(),
        slot_from(slots, info.key, k) is None,
    ensures
        slot_from(slots.push(info), info.key, k) == Some(slots.len() as usize),
    decreases slots.len() - k,
{
    if k < slots.len() {
        assert(slots.push(info)[k as int] == slots[k as int]);
        lemma_slot_pushed(slots, info, k + 1);
    }
}

/// The slots after the first `k` of `params` are asked for, in order.
pub open spec fn registered_all(slots: Seq<SlotInfo>, params: Seq<Param>, k: nat) -> Seq<SlotInfo>
    decreases k,
{
    if k == 0 {
        slots
    } else {
        registered(
            registered_all(slots, params, (k - 1) as nat),
            SlotInfo { key: SlotKey::Component(params[k - 1].key), name: params[k - 1].name },
        )
    }
}

/// Whether `found` are the slots of the component types that `params` name.
pub open spec fn resolves(slots: Seq<SlotInfo>, params: Seq<Param>, found: Seq<usize>) -> bool {
    &&& found.len() == params.len()
    &&& forall|i: int|
        0 <= i < params.len() ==> slot_of(
            slots,
            SlotKey::Component((#[trigger] params[i]).key),
        ) == Some(found[i])
}

proof fn lemma_resolves_stays(
    longer: Seq<SlotInfo>,
    shorter: Seq<SlotInfo>,
    params: Seq<Param>,
    found: Seq<usize>,
)
    requires
        extends(longer, shorter),
        resolves(shorter, params, found),
    ensures
        resolves(longer, params, found),
{
    assert forall|i: int| 0 <= i < params.len() implies slot_of(
        longer,
        SlotKey::Component((#[trigger] params[i]).key),
    ) == Some(found[i]) by {
        lemma_slot_stays(longer, shorter, SlotKey::Component(params[i].key), 0);
    }
}

/// The slots of the component types that `params` name; those not registered yet
/// are registered in order.
fn resolve(registry: &mut RegistryBuilder, params: &Vec<Param>) -> (found: Vec<usize>)
    ensures
        final(registry).slots@ == registered_all(old(registry).slots@, params@, params@.len()),
        extends(final(registry).slots@, old(registry).slots@),
        resolves(final(registry).slots@, params@, found@),
        in_range(found@, final(registry).slots@.len()),
{
    let mut found: Vec<usize> = Vec::new();
    let ghost before = registry.slots@;
    for i in 0..params.len()
        invariant
            registry.slots@ == registered_all(before, params@, i as nat),
            extends(registry.slots@, before),
            resolves(registry.slots@, params@.take(i as int), found@),
            in_range(found@, registry.slots@.len()),
    {
        let ghost mid = registry.slots@;
        let key = SlotKey::Component(params[i].key);
        let at: usize = registry.index(key, params[i].name);
        let ghost info = SlotInfo { key, name: params@[i as int].name };
        proof {
            assert(extends(registry.slots@, mid));
            lemma_resolves_stays(registry.slots@, mid, params@.take(i as int), found@);
            if slot_of(mid, key) is None {
                assert(registry.slots.len() <= usize::MAX);
                lemma_slot_pushed(mid, info, 0);
            }
            assert(slot_of(registry.slots@, key) == Some(at));
        }
        found.push(at);
        assert forall|k: int| 0 <= k < params@.take(i + 1).len() implies slot_of(
            registry.slots@,
            SlotKey::Component((#[trigger] params@.take(i + 1)[k]).key),
        ) == Some(found@[k]) by {
            if k < i {
                assert(params@.take(i + 1)[k] == params@.take(i as int)[k]);
            }
        }
    }
    assert(params@.take(params@.len() as int) =~= params@);
    found
}

/// The entries of `list` whose flag is set; missing flags count as not set.
pub open spec fn flagged(list: Seq<usize>, flags: Seq<bool>, k: nat) -> Seq<usize>
    decreases k,
{
    if k == 0 {
        Seq::empty()
    } else {
        let before = flagged(list, flags, (k - 1) as nat);
        if k - 1 < flags.len() && flags[k - 1] {
            before.push(list[k - 1])
        } else {
            before
        }
    }
}

fn pick_flagged(list: &Vec<usize>, flags: &Vec<bool>) -> (picked: Vec<usize>)
    ensures
        picked@ == flagged(list@, flags@, list@.len()),
        forall|n: nat| #[trigger] in_range(list@, n) ==> in_range(picked@, n),
{
    let mut picked: Vec<usize> = Vec::new();
    for i in 0..list.len()
        invariant
            picked@ == flagged(list@, flags@, i as nat),
            forall|n: nat| #[trigger] in_range(list@, n) ==> in_range(picked@, n),
    {
        if i < flags.len() && flags[i] {
            picked.push(list[i]);
        }
    }
    picked
}

/// Whether a component type is named twice.
pub open spec fn names_twice(params: Seq<Param>) -> bool {
    exists|i: int, j: int|
        0 <= i < j < params.len() && (#[trigger] params[i]).key == (#[trigger] params[j]).key
}

fn named_twice(params: &Vec<Param>) -> (b: bool)
    ensures
        b == names_twice(params@),
{
    for i in 0..params.len()
        invariant
            forall|a: int, b: int|
                0 <= a < i && a < b < params@.len() ==> (#[trigger] params@[a]).key != (
                #[trigger] params@[b]).key,
    {
        for j in i + 1..params.len()
            invariant
                i < params@.len(),
                forall|a: int, b: int|
                    0 <= a < i && a < b < params@.len() ==> (#[trigger] params@[a]).key != (
                    #[trigger] params@[b]).key,
                forall|b: int|
                    i < b < j ==> params@[i as int].key != (#[trigger] params@[b]).key,
        {
            if params[i].key == params[j].key {
                return true;
            }
        }
    }
    false
}

/// Whether a precondition is the compiled form of a declaration.
pub open spec fn compiled_check<M: PlanModel>(
    slots: Seq<SlotInfo>,
    decl: CheckDecl<M>,
    p: Precondition<M>,
) -> bool {
    p.check == CompiledCheck::<M>::Body(decl.check) && resolves(slots, decl.params@, p.reads@)
}

/// Whether an effect is the compiled form of a declaration.
pub open spec fn compiled_effect<M: PlanModel>(
    slots: Seq<SlotInfo>,
    decl: EffectDecl<M>,
    e: Effect<M>,
) -> bool {
    &&& e.body == EffectBody::<M>::Body(decl.mutator)
    &&& resolves(slots, decl.params@, e.params@)
    &&& e.writes@ == flagged(e.params@, decl.writes@, e.params@.len())
}

/// Whether a list of preconditions is compiled from a list of declarations.
pub open spec fn compiled_checks<M: PlanModel>(
    slots: Seq<SlotInfo>,
    decls: Seq<CheckDecl<M>>,
    ps: Seq<Precondition<M>>,
) -> bool {
    &&& ps.len() == decls.len()
    &&& forall|i: int| 0 <= i < decls.len() ==> compiled_check(slots, decls[i], #[trigger] ps[i])
}

/// Whether a list of effects is compiled from a list of declarations.
pub open spec fn compiled_effects<M: PlanModel>(
    slots: Seq<SlotInfo>,
    decls: Seq<EffectDecl<M>>,
    es: Seq<Effect<M>>,
) -> bool {
    &&& es.len() == decls.len()
    &&& forall|i: int| 0 <= i < decls.len() ==> compiled_effect(slots, decls[i], #[trigger] es[i])
}

/// A vector, last entry first.
pub(crate) fn reversed<T>(v: Vec<T>) -> (r: Vec<T>)
    ensures
        r@ == v@.reverse(),
{
    let ghost all = v@;
    let mut rest = v;
    let mut r: Vec<T> = Vec::new();
    while rest.len() > 0
        invariant
            rest@ == all.take(rest@.len() as int),
            rest@.len() + r@.len() == all.len(),
            forall|i: int| 0 <= i < r@.len() ==> r@[i] == all[all.len() - 1 - i],
        decreases rest@.len(),
    {
        r.push(rest.pop().unwrap());
    }
    assert(r@ =~= all.reverse());
    r
}

/// The parameters of the first `k` declared preconditions.
pub open spec fn check_params<M: PlanModel>(decls: Seq<CheckDecl<M>>, k: nat) -> Seq<Param>
    decreases k,
{
    if k == 0 {
        Seq::empty()
    } else {
        check_params(decls, (k - 1) as nat) + decls[k - 1].params@
    }
}

/// The parameters of the first `k` declared effects.
pub open spec fn effect_params<M: PlanModel>(decls: Seq<EffectDecl<M>>, k: nat) -> Seq<Param>
    decreases k,
{
    if k == 0 {
        Seq::empty()
    } else {
        effect_params(decls, (k - 1) as nat) + decls[k - 1].params@
    }
}

proof fn lemma_registered_concat(slots: Seq<SlotInfo>, a: Seq<Param>, b: Seq<Param>, k: nat)
    requires
        k <= b.len(),
    ensures
        registered_all(registered_all(slots, a, a.len()), b, k) == registered_all(
            slots,
            a + b,
            a.len() + k,
        ),
    decreases k,
{
    if k == 0 {
        lemma_registered_prefix(slots, a, a + b, a.len());
    } else {
        lemma_registered_concat(slots, a, b, (k - 1) as nat);
        assert((a + b)[a.len() + k - 1] == b[k - 1]);
    }
}

proof fn lemma_registered_prefix(slots: Seq<SlotInfo>, a: Seq<Param>, b: Seq<Param>, k: nat)
    requires
        k <= a.len(),
        k <= b.len(),
        forall|i: int| 0 <= i < k ==> a[i] == b[i],
    ensures
        registered_all(slots, a, k) == registered_all(slots, b, k),
    decreases k,
{
    if k > 0 {
        lemma_registered_prefix(slots, a, b, (k - 1) as nat);
    }
}

proof fn lemma_check_stays<M: PlanModel>(
    longer: Seq<SlotInfo>,
    shorter: Seq<SlotInfo>,
    decl: CheckDecl<M>,
    p: Precondition<M>,
)
    requires
        extends(longer, shorter),
        compiled_check(shorter, decl, p),
    ensures
        compiled_check(longer, decl, p),
{
    lemma_resolves_stays(longer, shorter, decl.params@, p.reads@);
}

proof fn lemma_effect_stays<M: PlanModel>(
    longer: Seq<SlotInfo>,
    shorter: Seq<SlotInfo>,
    decl: EffectDecl<M>,
    e: Effect<M>,
)
    requires
        extends(longer, shorter),
        compiled_effect(shorter, decl, e),
    ensures
        compiled_effect(longer, decl, e),
{
    lemma_resolves_stays(longer, shorter, decl.params@, e.params@);
}

pub proof fn lemma_fit_grows<M: PlanModel>(ps: Seq<Precondition<M>>, a: nat, b: nat)
    requires
        all_fit(ps, a),
        a <= b,
    ensures
        all_fit(ps, b),
{
    assert forall|i: int| 0 <= i < ps.len() implies (#[trigger] ps[i]).wf(b) by {
        assert(ps[i].wf(a));
        match ps[i].check {
            CompiledCheck::SharedDone { slot, id, gates } => {
                assert forall|j: int| 0 <= j < gates@.len() implies in_range(
                    (#[trigger] gates@[j]).reads@,
                    b,
                ) && crate::model::covered(gates@[j].reads@, ps[i].reads@) by {
                    assert(in_range(gates@[j].reads@, a));
                }
            },
            _ => {},
        }
    }
}

pub proof fn lemma_effects_fit_grow<M: PlanModel>(es: Seq<Effect<M>>, a: nat, b: nat)
    requires
        effects_fit(es, a),
        a <= b,
    ensures
        effects_fit(es, b),
{
    assert forall|i: int| 0 <= i < es.len() implies (#[trigger] es[i]).wf(b) by {
        assert(es[i].wf(a));
    }
}

/// Compiles declared preconditions.
fn compile_checks<M: PlanModel>(
    registry: &mut RegistryBuilder,
    decls: Vec<CheckDecl<M>>,
) -> (ps: Vec<Precondition<M>>)
    ensures
        final(registry).slots@ == registered_all(
            old(registry).slots@,
            check_params(decls@, decls@.len()),
            check_params(decls@, decls@.len()).len(),
        ),
        extends(final(registry).slots@, old(registry).slots@),
        compiled_checks(final(registry).slots@, decls@, ps@),
        all_fit(ps@, final(registry).slots@.len()),
{
    let ghost all = decls@;
    let ghost before = registry.slots@;
    let mut rest = reversed(decls);
    let mut ps: Vec<Precondition<M>> = Vec::new();
    while rest.len() > 0
        invariant
            rest@.len() + ps@.len() == all.len(),
            forall|i: int| 0 <= i < rest@.len() ==> rest@[i] == all[all.len() - 1 - i],
            registry.slots@ == registered_all(
                before,
                check_params(all, ps@.len()),
                check_params(all, ps@.len()).len(),
            ),
            extends(registry.slots@, before),
            forall|i: int|
                0 <= i < ps@.len() ==> compiled_check(
                    registry.slots@,
                    all[i],
                    #[trigger] ps@[i],
                ),
            all_fit(ps@, registry.slots@.len()),
        decreases rest@.len(),
    {
        let ghost n = ps@.len();
        let ghost mid = registry.slots@;
        let decl = rest.pop().unwrap();
        assert(decl == all[n as int]);
        let reads = resolve(registry, &decl.params);
        let p = Precondition { check: CompiledCheck::Body(decl.check), reads };
        proof {
            lemma_registered_concat(before, check_params(all, n), decl.params@, decl.params@.len());
            lemma_fit_grows(ps@, mid.len(), registry.slots@.len());
            assert forall|i: int| 0 <= i < n implies compiled_check(
                registry.slots@,
                all[i],
                #[trigger] ps@[i],
            ) by {
                lemma_check_stays(registry.slots@, mid, all[i], ps@[i]);
            }
        }
        ps.push(p);
    }
    ps
}

/// The message for an effect that names a component type twice.
pub open spec fn twice_message() -> Seq<char> {
    "effect closure takes the same component type twice — a `&mut` pair would alias; merge the parameters into one `&mut`"@
}

/// How many of the first `k` declared effects name a component type twice.
pub open spec fn twice_count<M: PlanModel>(decls: Seq<EffectDecl<M>>, k: nat) -> nat
    decreases k,
{
    if k == 0 {
        0
    } else {
        twice_count(decls, (k - 1) as nat) + (if names_twice(decls[k - 1].params@) {
            1nat
        } else {
            0nat
        })
    }
}

/// Whether `errors` are `before` and `n` further entries with the message for an
/// effect that names a component type twice.
pub open spec fn twice_added(errors: Seq<String>, before: Seq<String>, n: nat) -> bool {
    &&& errors.len() == before.len() + n
    &&& errors.take(before.len() as int) == before
    &&& forall|i: int| before.len() <= i < errors.len() ==> (#[trigger] errors[i])@ == twice_message()
}

/// Compiles declared effects. One that names a component type twice is reported.
pub(crate) fn compile_effects<M: PlanModel>(
    registry: &mut RegistryBuilder,
    errors: &mut Vec<String>,
    decls: Vec<EffectDecl<M>>,
) -> (es: Vec<Effect<M>>)
    ensures
        final(registry).slots@ == registered_all(
            old(registry).slots@,
            effect_params(decls@, decls@.len()),
            effect_params(decls@, decls@.len()).len(),
        ),
        extends(final(registry).slots@, old(registry).slots@),
        compiled_effects(final(registry).slots@, decls@, es@),
        effects_fit(es@, final(registry).slots@.len()),
        twice_added(final(errors)@, old(errors)@, twice_count(decls@, decls@.len())),
{
    let ghost all = decls@;
    let ghost before = registry.slots@;
    let ghost errors_before = errors@;
    let mut rest = reversed(decls);
    let mut es: Vec<Effect<M>> = Vec::new();
    assert(errors@.take(errors_before.len() as int) =~= errors_before);
    while rest.len() > 0
        invariant
            rest@.len() + es@.len() == all.len(),
            forall|i: int| 0 <= i < rest@.len() ==> rest@[i] == all[all.len() - 1 - i],
            registry.slots@ == registered_all(
                before,
                effect_params(all, es@.len()),
                effect_params(all, es@.len()).len(),
            ),
            extends(registry.slots@, before),
            forall|i: int|
                0 <= i < es@.len() ==> compiled_effect(
                    registry.slots@,
                    all[i],
                    #[trigger] es@[i],
                ),
            effects_fit(es@, registry.slots@.len()),
            twice_added(errors@, errors_before, twice_count(all, es@.len())),
        decreases rest@.len(),
    {
        let ghost n = es@.len();
        let ghost mid = registry.slots@;
        let decl = rest.pop().unwrap();
        assert(decl == all[n as int]);
        if named_twice(&decl.params) {
            let ghost e0 = errors@;
            errors.push(
                "effect closure takes the same component type twice — a `&mut` pair would alias; merge the parameters into one `&mut`".to_owned(),
            );
            assert(errors@.take(errors_before.len() as int) =~= e0.take(
                errors_before.len() as int,
            ));
        }
        let params = resolve(registry, &decl.params);
        let writes = pick_flagged(&params, &decl.writes);
        let e = Effect { body: EffectBody::Body(decl.mutator), params, writes };
        proof {
            assert(in_range(params@, registry.slots@.len()));
            lemma_registered_concat(
                before,
                effect_params(all, n),
                decl.params@,
                decl.params@.len(),
            );
            lemma_effects_fit_grow(es@, mid.len(), registry.slots@.len());
            assert forall|i: int| 0 <= i < n implies compiled_effect(
                registry.slots@,
                all[i],
                #[trigger] es@[i],
            ) by {
                lemma_effect_stays(registry.slots@, mid, all[i], es@[i]);
            }
        }
        es.push(e);
    }
    es
}

/// The members that declarations stand for.
pub open spec fn member_protos(decls: Seq<MemberDecl>) -> Seq<MemberProto> {
    Seq::new(
        decls.len(),
        |i: int|
            MemberProto {
                task: SubtaskRef::Fn(decls[i].task),
                name: decls[i].name,
                chained: decls[i].chained,
            },
    )
}

/// Whether a recorded branch is the compiled form of a declared one.
pub open spec fn compiled_method<M: PlanModel>(
    slots: Seq<SlotInfo>,
    decl: MethodBuilder<M>,
    m: MethodProto<M>,
) -> bool {
    &&& m.name == decl.name
    &&& m.utility == decl.utility
    &&& compiled_checks(slots, decl.preconditions@, m.preconditions@)
    &&& m.subtasks@ == member_protos(decl.subtasks@)
    &&& m.unordered == decl.unordered
    &&& m.edges@ == decl.edges@
    &&& m.pause_positions@ == decl.pause_positions@
}

/// The component types that a branch names, in order.
pub open spec fn method_params<M: PlanModel>(decl: MethodBuilder<M>) -> Seq<Param> {
    decl.declared@ + check_params(decl.preconditions@, decl.preconditions@.len())
}

/// The component types that the first `k` branches name, in order.
pub open spec fn methods_params<M: PlanModel>(decls: Seq<MethodBuilder<M>>, k: nat) -> Seq<Param>
    decreases k,
{
    if k == 0 {
        Seq::empty()
    } else {
        methods_params(decls, (k - 1) as nat) + method_params(decls[k - 1])
    }
}

/// The task functions that a branch refers to, in order.
pub open spec fn method_refs<M: PlanModel>(decl: MethodBuilder<M>) -> Seq<(u64, Ustr)> {
    Seq::new(
        decl.subtasks@.len(),
        |i: int| (decl.subtasks@[i].task, decl.subtasks@[i].name),
    )
}

/// The task functions that the first `k` branches refer to, in order.
pub open spec fn methods_refs<M: PlanModel>(decls: Seq<MethodBuilder<M>>, k: nat) -> Seq<
    (u64, Ustr),
>
    decreases k,
{
    if k == 0 {
        Seq::empty()
    } else {
        methods_refs(decls, (k - 1) as nat) + method_refs(decls[k - 1])
    }
}

/// Whether a branch's preconditions fit `n` slots.
pub open spec fn method_fits<M: PlanModel>(m: MethodProto<M>, n: nat) -> bool {
    all_fit(m.preconditions@, n)
}

/// Compiles a declared branch, and queues the task functions it refers to.
fn compile_method<M: PlanModel>(
    registry: &mut RegistryBuilder,
    queue: &mut VecDeque<(u64, Ustr)>,
    decl: MethodBuilder<M>,
) -> (m: MethodProto<M>)
    ensures
        final(registry).slots@ == registered_all(
            old(registry).slots@,
            method_params(decl),
            method_params(decl).len(),
        ),
        extends(final(registry).slots@, old(registry).slots@),
        compiled_method(final(registry).slots@, decl, m),
        method_fits(m, final(registry).slots@.len()),
        final(queue)@ == old(queue)@ + method_refs(decl),
{
    let ghost before = registry.slots@;
    let ghost queued = queue@;
    resolve(registry, &decl.declared);
    let preconditions = compile_checks(registry, decl.preconditions);
    proof {
        let more = check_params(decl.preconditions@, decl.preconditions@.len());
        lemma_registered_concat(before, decl.declared@, more, more.len());
    }
    let mut subtasks: Vec<MemberProto> = Vec::new();
    let members = decl.subtasks;
    for i in 0..members.len()
        invariant
            subtasks@ == member_protos(members@.take(i as int)),
            queue@ == queued + Seq::new(
                i as nat,
                |k: int| (members@[k].task, members@[k].name),
            ),
    {
        let member = members[i];
        subtasks.push(
            MemberProto {
                task: SubtaskRef::Fn(member.task),
                name: member.name,
                chained: member.chained,
            },
        );
        queue.push_back((member.task, member.name));
        assert(subtasks@ =~= member_protos(members@.take(i + 1)));
        assert(queue@ =~= queued + Seq::new(
            (i + 1) as nat,
            |k: int| (members@[k].task, members@[k].name),
        ));
    }
    assert(members@.take(members@.len() as int) =~= members@);
    assert(queue@ =~= queued + method_refs(decl));
    MethodProto {
        name: decl.name,
        utility: decl.utility,
        preconditions,
        subtasks,
        unordered: decl.unordered,
        edges: decl.edges,
        pause_positions: decl.pause_positions,
    }
}

proof fn lemma_checks_stay<M: PlanModel>(
    longer: Seq<SlotInfo>,
    shorter: Seq<SlotInfo>,
    decls: Seq<CheckDecl<M>>,
    ps: Seq<Precondition<M>>,
)
    requires
        extends(longer, shorter),
        compiled_checks(shorter, decls, ps),
    ensures
        compiled_checks(longer, decls, ps),
{
    assert forall|i: int| 0 <= i < decls.len() implies compiled_check(
        longer,
        decls[i],
        #[trigger] ps[i],
    ) by {
        lemma_check_stays(longer, shorter, decls[i], ps[i]);
    }
}

proof fn lemma_effects_stay<M: PlanModel>(
    longer: Seq<SlotInfo>,
    shorter: Seq<SlotInfo>,
    decls: Seq<EffectDecl<M>>,
    es: Seq<Effect<M>>,
)
    requires
        extends(longer, shorter),
        compiled_effects(shorter, decls, es),
    ensures
        compiled_effects(longer, decls, es),
{
    assert forall|i: int| 0 <= i < decls.len() implies compiled_effect(
        longer,
        decls[i],
        #[trigger] es[i],
    ) by {
        lemma_effect_stays(longer, shorter, decls[i], es[i]);
    }
}

/// Whether recorded branches are compiled from declared ones.
pub open spec fn compiled_methods<M: PlanModel>(
    slots: Seq<SlotInfo>,
    decls: Seq<MethodBuilder<M>>,
    ms: Seq<MethodProto<M>>,
) -> bool {
    &&& ms.len() == decls.len()
    &&& forall|i: int| 0 <= i < decls.len() ==> compiled_method(slots, decls[i], #[trigger] ms[i])
}

proof fn lemma_methods_stay<M: PlanModel>(
    longer: Seq<SlotInfo>,
    shorter: Seq<SlotInfo>,
    decls: Seq<MethodBuilder<M>>,
    ms: Seq<MethodProto<M>>,
)
    requires
        extends(longer, shorter),
        ms.len() <= decls.len(),
        forall|i: int|
            0 <= i < ms.len() ==> compiled_method(shorter, decls[i], #[trigger] ms[i]),
    ensures
        forall|i: int| 0 <= i < ms.len() ==> compiled_method(longer, decls[i], #[trigger] ms[i]),
{
    assert forall|i: int| 0 <= i < ms.len() implies compiled_method(
        longer,
        decls[i],
        #[trigger] ms[i],
    ) by {
        lemma_checks_stay(longer, shorter, decls[i].preconditions@, ms[i].preconditions@);
    }
}

/// Compiles declared branches.
fn compile_methods<M: PlanModel>(
    registry: &mut RegistryBuilder,
    queue: &mut VecDeque<(u64, Ustr)>,
    decls: Vec<MethodBuilder<M>>,
) -> (ms: Vec<MethodProto<M>>)
    ensures
        final(registry).slots@ == registered_all(
            old(registry).slots@,
            methods_params(decls@, decls@.len()),
            methods_params(decls@, decls@.len()).len(),
        ),
        extends(final(registry).slots@, old(registry).slots@),
        compiled_methods(final(registry).slots@, decls@, ms@),
        forall|i: int|
            0 <= i < ms@.len() ==> method_fits(#[trigger] ms@[i], final(registry).slots@.len()),
        final(queue)@ == old(queue)@ + methods_refs(decls@, decls@.len()),
{
    let ghost all = decls@;
    let ghost before = registry.slots@;
    let ghost queued = queue@;
    let mut rest = reversed(decls);
    let mut ms: Vec<MethodProto<M>> = Vec::new();
    assert(queue@ =~= queued + methods_refs(all, 0));
    while rest.len() > 0
        invariant
            rest@.len() + ms@.len() == all.len(),
            forall|i: int| 0 <= i < rest@.len() ==> rest@[i] == all[all.len() - 1 - i],
            registry.slots@ == registered_all(
                before,
                methods_params(all, ms@.len()),
                methods_params(all, ms@.len()).len(),
            ),
            extends(registry.slots@, before),
            forall|i: int|
                0 <= i < ms@.len() ==> compiled_method(
                    registry.slots@,
                    all[i],
                    #[trigger] ms@[i],
                ),
            forall|i: int|
                0 <= i < ms@.len() ==> method_fits(#[trigger] ms@[i], registry.slots@.len()),
            queue@ == queued + methods_refs(all, ms@.len()),
        decreases rest@.len(),
    {
        let ghost n = ms@.len();
        let ghost mid = registry.slots@;
        let ghost mid_queue = queue@;
        let decl = rest.pop().unwrap();
        assert(decl == all[n as int]);
        let m = compile_method(registry, queue, decl);
        proof {
            lemma_registered_concat(
                before,
                methods_params(all, n),
                method_params(decl),
                method_params(decl).len(),
            );
            lemma_methods_stay(registry.slots@, mid, all, ms@);
            assert forall|i: int| 0 <= i < n implies method_fits(
                #[trigger] ms@[i],
                registry.slots@.len(),
            ) by {
                lemma_fit_grows(ms@[i].preconditions@, mid.len(), registry.slots@.len());
            }
            assert(queue@ =~= queued + methods_refs(all, n + 1));
        }
        ms.push(m);
    }
    ms
}

/// Whether a recorded task is the compiled form of what its function declared.
pub open spec fn compiled_task<M: PlanModel>(
    slots: Seq<SlotInfo>,
    draft: TaskBuilder<M>,
    proto: TaskProto<M>,
) -> bool {
    if draft.methods@.len() > 0 {
        &&& proto matches TaskProto::Compound { methods, policy } && compiled_methods(
            slots,
            draft.methods@,
            methods@,
        ) && match draft.selection {
            Some(p) => policy == p,
            None => policy is FirstMatch,
        }
    } else {
        proto matches TaskProto::Primitive {
            preconditions,
            effects,
            expected_effects,
            action,
            cost,
        } && {
            &&& compiled_checks(slots, draft.preconditions@, preconditions@)
            &&& compiled_effects(slots, draft.effects@, effects@)
            &&& compiled_effects(slots, draft.expected_effects@, expected_effects@)
            &&& action == draft.action
            &&& cost == draft.cost
        }
    }
}

/// The component types that a task names, in the order they get slots.
pub open spec fn draft_params<M: PlanModel>(draft: TaskBuilder<M>) -> Seq<Param> {
    draft.declared@ + check_params(draft.preconditions@, draft.preconditions@.len())
        + effect_params(draft.effects@, draft.effects@.len()) + effect_params(
        draft.expected_effects@,
        draft.expected_effects@.len(),
    ) + methods_params(draft.methods@, draft.methods@.len())
}

/// The task functions that a task refers to, in order.
pub open spec fn draft_refs<M: PlanModel>(draft: TaskBuilder<M>) -> Seq<(u64, Ustr)> {
    methods_refs(draft.methods@, draft.methods@.len())
}

/// What is wrong with what a task function declared, if anything.
pub open spec fn draft_error<M: PlanModel>(draft: TaskBuilder<M>) -> Option<Seq<char>> {
    if draft.methods@.len() > 0 {
        if draft.preconditions@.len() > 0 || draft.effects@.len() > 0
            || draft.expected_effects@.len() > 0 || draft.action is Some {
            Some(
                "task mixes compound (`branch`) and primitive (`precondition`/`effect`/`action`) declarations"@,
            )
        } else {
            None
        }
    } else if draft.selection is Some {
        Some("`select` declares a branch-selection policy on a primitive task"@)
    } else {
        None
    }
}

/// Whether `errors` are `before` and, where there is one, the entry `added`.
pub open spec fn error_added(
    errors: Seq<String>,
    before: Seq<String>,
    added: Option<Seq<char>>,
) -> bool {
    match added {
        None => errors == before,
        Some(entry) => errors.len() == before.len() + 1 && errors.take(before.len() as int)
            == before && errors.last()@ == entry,
    }
}

/// Whether what was recorded of a task fits `n` slots.
pub open spec fn proto_fits<M: PlanModel>(proto: TaskProto<M>, n: nat) -> bool {
    match proto {
        TaskProto::Compound { methods, policy } => forall|i: int|
            0 <= i < methods@.len() ==> method_fits(#[trigger] methods@[i], n),
        TaskProto::Primitive { preconditions, effects, expected_effects, action, cost } => {
            &&& all_fit(preconditions@, n)
            &&& effects_fit(effects@, n)
            &&& effects_fit(expected_effects@, n)
        },
    }
}

pub proof fn lemma_proto_fits_grows<M: PlanModel>(proto: TaskProto<M>, a: nat, b: nat)
    requires
        proto_fits(proto, a),
        a <= b,
    ensures
        proto_fits(proto, b),
{
    match proto {
        TaskProto::Compound { methods, policy } => {
            assert forall|i: int| 0 <= i < methods@.len() implies method_fits(
                #[trigger] methods@[i],
                b,
            ) by {
                lemma_fit_grows(methods@[i].preconditions@, a, b);
            }
        },
        TaskProto::Primitive { preconditions, effects, expected_effects, action, cost } => {
            lemma_fit_grows(preconditions@, a, b);
            lemma_effects_fit_grow(effects@, a, b);
            lemma_effects_fit_grow(expected_effects@, a, b);
        },
    }
}

pub proof fn lemma_task_stays<M: PlanModel>(
    longer: Seq<SlotInfo>,
    shorter: Seq<SlotInfo>,
    draft: TaskBuilder<M>,
    proto: TaskProto<M>,
)
    requires
        extends(longer, shorter),
        compiled_task(shorter, draft, proto),
    ensures
        compiled_task(longer, draft, proto),
{
    match proto {
        TaskProto::Compound { methods, policy } => {
            lemma_methods_stay(longer, shorter, draft.methods@, methods@);
        },
        TaskProto::Primitive { preconditions, effects, expected_effects, action, cost } => {
            lemma_checks_stay(longer, shorter, draft.preconditions@, preconditions@);
            lemma_effects_stay(longer, shorter, draft.effects@, effects@);
            lemma_effects_stay(longer, shorter, draft.expected_effects@, expected_effects@);
        },
    }
}

impl<M: PlanModel> Recorder<M> {
    /// A recording without any task.
    pub fn new() -> (rec: Recorder<M>)
        ensures
            rec.registry.slots@.len() == 0,
            rec.tasks@.len() == 0,
            rec.queue@.len() == 0,
            rec.errors@.len() == 0,
            rec.effect_errors@.len() == 0,
            rec.next_synthetic == 0,
            rec.shares@.len() == 0,
            rec.insertables@.len() == 0,
            !rec.insertion,
            rec.extra_roots@.len() == 0,
    {
        Recorder {
            registry: RegistryBuilder { slots: Vec::new() },
            tasks: Vec::new(),
            queue: VecDeque::new(),
            errors: Vec::new(),
            effect_errors: Vec::new(),
            next_synthetic: 0,
            shares: Vec::new(),
            insertables: Vec::new(),
            insertion: false,
            extra_roots: Vec::new(),
        }
    }

    /// Records what a task function declared.
    pub fn record(&mut self, task: u64, name: Ustr, draft: TaskBuilder<M>)
        ensures
            final(self).tasks@.len() == old(self).tasks@.len() + 1,
            final(self).tasks@.drop_last() == old(self).tasks@,
            final(self).tasks@.last().id == SubtaskRef::Fn(task),
            final(self).tasks@.last().name == name,
            compiled_task(final(self).registry.slots@, draft, final(self).tasks@.last().proto),
            proto_fits(final(self).tasks@.last().proto, final(self).registry.slots@.len()),
            final(self).registry.slots@ == registered_all(
                old(self).registry.slots@,
                draft_params(draft),
                draft_params(draft).len(),
            ),
            extends(final(self).registry.slots@, old(self).registry.slots@),
            final(self).queue@ == old(self).queue@ + draft_refs(draft),
            error_added(final(self).errors@, old(self).errors@, draft_error(draft)),
            twice_added(
                final(self).effect_errors@,
                old(self).effect_errors@,
                twice_count(draft.effects@, draft.effects@.len()) + twice_count(
                    draft.expected_effects@,
                    draft.expected_effects@.len(),
                ),
            ),
            final(self).next_synthetic == old(self).next_synthetic,
            final(self).shares@ == old(self).shares@,
            final(self).insertables@ == old(self).insertables@,
            final(self).insertion == old(self).insertion,
            final(self).extra_roots@ == old(self).extra_roots@,
    {
        let ghost before = self.registry.slots@;
        let ghost mistakes = self.effect_errors@;
        let ghost declared = draft.declared@;
        let compound = draft.methods.len() > 0;
        let mixed = draft.preconditions.len() > 0 || draft.effects.len() > 0
            || draft.expected_effects.len() > 0 || draft.action.is_some();
        if compound {
            if mixed {
                self.errors.push(
                    "task mixes compound (`branch`) and primitive (`precondition`/`effect`/`action`) declarations".to_owned(),
                );
            }
        } else if draft.selection.is_some() {
            self.errors.push(
                "`select` declares a branch-selection policy on a primitive task".to_owned(),
            );
        }
        assert(error_added(self.errors@, old(self).errors@, draft_error(draft))) by {
            if draft_error(draft) is Some {
                assert(self.errors@.take(old(self).errors@.len() as int) =~= old(self).errors@);
            }
        }
        resolve(&mut self.registry, &draft.declared);
        let ghost s1 = self.registry.slots@;
        let preconditions = compile_checks(&mut self.registry, draft.preconditions);
        let ghost s2 = self.registry.slots@;
        let effects = compile_effects(
            &mut self.registry,
            &mut self.effect_errors,
            draft.effects,
        );
        let ghost s3 = self.registry.slots@;
        let ghost mistakes2 = self.effect_errors@;
        let expected_effects = compile_effects(
            &mut self.registry,
            &mut self.effect_errors,
            draft.expected_effects,
        );
        let ghost s4 = self.registry.slots@;
        let methods = compile_methods(&mut self.registry, &mut self.queue, draft.methods);
        proof {
            let s5 = self.registry.slots@;
            let a = draft.declared@;
            let b = check_params(draft.preconditions@, draft.preconditions@.len());
            let c = effect_params(draft.effects@, draft.effects@.len());
            let e = effect_params(draft.expected_effects@, draft.expected_effects@.len());
            let m = methods_params(draft.methods@, draft.methods@.len());
            lemma_registered_concat(before, a, b, b.len());
            lemma_registered_concat(before, a + b, c, c.len());
            lemma_registered_concat(before, a + b + c, e, e.len());
            lemma_registered_concat(before, a + b + c + e, m, m.len());
            assert(extends(s5, s2));
            assert(extends(s5, s3));
            lemma_checks_stay(s5, s2, draft.preconditions@, preconditions@);
            lemma_effects_stay(s5, s3, draft.effects@, effects@);
            lemma_effects_stay(s5, s4, draft.expected_effects@, expected_effects@);
            lemma_fit_grows(preconditions@, s2.len(), s5.len());
            lemma_effects_fit_grow(effects@, s3.len(), s5.len());
            lemma_effects_fit_grow(expected_effects@, s4.len(), s5.len());
            let all = self.effect_errors@;
            assert(all.take(mistakes.len() as int) =~= all.take(mistakes2.len() as int).take(
                mistakes.len() as int,
            ));
            assert forall|i: int| mistakes.len() <= i < all.len() implies (#[trigger] all[i])@
                == twice_message() by {
                if i < mistakes2.len() {
                    assert(all.take(mistakes2.len() as int)[i] == all[i]);
                }
            }
        }
        let proto = if compound {
            let policy = match draft.selection {
                Some(p) => p,
                None => SelectionPolicy::FirstMatch,
            };
            TaskProto::Compound { methods, policy }
        } else {
            TaskProto::Primitive {
                preconditions,
                effects,
                expected_effects,
                action: draft.action,
                cost: draft.cost,
            }
        };
        let ghost tasks_before = self.tasks@;
        self.tasks.push(TaskEntry { id: SubtaskRef::Fn(task), name, proto });
        assert(self.tasks@.drop_last() =~= tasks_before);
    }
}

/// The author's task functions.
pub trait TaskSource<M: PlanModel> {
    /// Whether task function `task` may declare `draft`.
    spec fn may_declare(&self, task: u64, draft: TaskBuilder<M>) -> bool;

    /// Runs task function `task` against a builder on which nothing is declared.
    fn record(&self, task: u64, builder: &mut TaskBuilder<M>)
        ensures
            self.may_declare(task, *final(builder)),
    ;
}

/// The first task from `k` on that members refer to by `r`.
pub open spec fn entry_from<M: PlanModel>(
    tasks: Seq<TaskEntry<M>>,
    r: SubtaskRef,
    k: nat,
) -> Option<usize>
    decreases tasks.len() - k,
{
    if k >= tasks.len() {
        None
    } else if tasks[k as int].id == r {
        Some(k as usize)
    } else {
        entry_from(tasks, r, k + 1)
    }
}

/// The index of the task that members refer to by `r`, if it is recorded.
pub open spec fn entry_of<M: PlanModel>(tasks: Seq<TaskEntry<M>>, r: SubtaskRef) -> Option<usize> {
    entry_from(tasks, r, 0)
}

pub proof fn lemma_entry_found<M: PlanModel>(tasks: Seq<TaskEntry<M>>, r: SubtaskRef, k: nat)
    requires
        tasks.len() <= usize::MAX,
    ensures
        match entry_from(tasks, r, k) {
            Some(i) => k <= i < tasks.len() && tasks[i as int].id == r && forall|j: int|
                k <= j < i ==> (#[trigger] tasks[j]).id != r,
            None => forall|j: int| k <= j < tasks.len() ==> (#[trigger] tasks[j]).id != r,
        },
    decreases tasks.len() - k,
{
    if k < tasks.len() && tasks[k as int].id != r {
        lemma_entry_found(tasks, r, k + 1);
    }
}

/// The index of the task that members refer to by `r`.
pub(crate) fn find_entry<M: PlanModel>(tasks: &Vec<TaskEntry<M>>, r: SubtaskRef) -> (found: Option<
    usize,
>)
    ensures
        found == entry_of(tasks@, r),
        found matches Some(i) ==> i < tasks@.len() && tasks@[i as int].id == r,
{
    for i in 0..tasks.len()
        invariant
            entry_of(tasks@, r) == entry_from(tasks@, r, i as nat),
    {
        if tasks[i].id == r {
            return Some(i);
        }
    }
    None
}

/// Whether a task function is queued.
pub open spec fn queued(queue: Seq<(u64, Ustr)>, task: u64) -> bool {
    exists|q: int| 0 <= q < queue.len() && (#[trigger] queue[q]).0 == task
}

/// Whether `r` refers to a recorded task.
pub open spec fn recorded<M: PlanModel>(tasks: Seq<TaskEntry<M>>, r: SubtaskRef) -> bool {
    exists|i: int| 0 <= i < tasks.len() && (#[trigger] tasks[i]).id == r
}

/// Whether every member of a task refers to a recorded task, or to one that is
/// queued.
pub open spec fn members_known<M: PlanModel>(
    tasks: Seq<TaskEntry<M>>,
    queue: Seq<(u64, Ustr)>,
    proto: TaskProto<M>,
) -> bool {
    proto matches TaskProto::Compound { methods, policy } ==> forall|m: int, k: int|
        0 <= m < methods@.len() && 0 <= k < methods@[m].subtasks@.len() ==> {
            let r = (#[trigger] methods@[m].subtasks@[k]).task;
            recorded(tasks, r) || (r matches SubtaskRef::Fn(id) && queued(queue, id))
        }
}

/// Whether no two tasks are referred to alike.
pub open spec fn distinct<M: PlanModel>(tasks: Seq<TaskEntry<M>>) -> bool {
    forall|i: int, j: int|
        0 <= i < j < tasks.len() ==> (#[trigger] tasks[i]).id != (#[trigger] tasks[j]).id
}

/// Whether a primitive's preconditions are all the author's own.
pub open spec fn authored<M: PlanModel>(proto: TaskProto<M>) -> bool {
    proto matches TaskProto::Primitive {
        preconditions,
        effects,
        expected_effects,
        action,
        cost,
    } ==> forall|i: int| 0 <= i < preconditions@.len() ==> (#[trigger] preconditions@[i]).check is Body
}

impl<M: PlanModel> Recorder<M> {
    /// Whether the recording is consistent: every task is recorded once, fits
    /// the slots, and refers to recorded or queued tasks.
    pub open spec fn wf(&self) -> bool {
        &&& distinct(self.tasks@)
        &&& forall|i: int|
            0 <= i < self.tasks@.len() ==> authored((#[trigger] self.tasks@[i]).proto) && (
            self.tasks@[i].id matches SubtaskRef::Synthetic(s) ==> s < self.next_synthetic)
        &&& forall|i: int|
            0 <= i < self.tasks@.len() ==> proto_fits(
                (#[trigger] self.tasks@[i]).proto,
                self.registry.slots@.len(),
            )
        &&& forall|i: int|
            0 <= i < self.tasks@.len() ==> members_known(
                self.tasks@,
                self.queue@,
                (#[trigger] self.tasks@[i]).proto,
            )
    }
}

/// The component types that drafts name, in the order they get slots.
pub open spec fn drafts_params<M: PlanModel>(drafts: Seq<TaskBuilder<M>>) -> Seq<Param>
    decreases drafts.len(),
{
    if drafts.len() == 0 {
        Seq::empty()
    } else {
        drafts_params(drafts.drop_last()) + draft_params(drafts.last())
    }
}

/// The task functions that drafts refer to, in order.
pub open spec fn drafts_refs<M: PlanModel>(drafts: Seq<TaskBuilder<M>>) -> Seq<(u64, Ustr)>
    decreases drafts.len(),
{
    if drafts.len() == 0 {
        Seq::empty()
    } else {
        drafts_refs(drafts.drop_last()) + draft_refs(drafts.last())
    }
}

/// What is wrong with drafts, in order.
pub open spec fn drafts_errors<M: PlanModel>(drafts: Seq<TaskBuilder<M>>) -> Seq<Seq<char>>
    decreases drafts.len(),
{
    if drafts.len() == 0 {
        Seq::empty()
    } else {
        let before = drafts_errors(drafts.drop_last());
        match draft_error(drafts.last()) {
            Some(entry) => before.push(entry),
            None => before,
        }
    }
}

/// How many effects of a draft name a component type twice.
pub open spec fn draft_twice<M: PlanModel>(draft: TaskBuilder<M>) -> nat {
    twice_count(draft.effects@, draft.effects@.len()) + twice_count(
        draft.expected_effects@,
        draft.expected_effects@.len(),
    )
}

/// How many effects of drafts name a component type twice.
pub open spec fn drafts_twice<M: PlanModel>(drafts: Seq<TaskBuilder<M>>) -> nat
    decreases drafts.len(),
{
    if drafts.len() == 0 {
        0
    } else {
        drafts_twice(drafts.drop_last()) + draft_twice(drafts.last())
    }
}

/// The texts of a list of strings.
pub open spec fn texts(list: Seq<String>) -> Seq<Seq<char>> {
    Seq::new(list.len(), |i: int| list[i]@)
}

/// Whether a list of references names a task function.
pub open spec fn named_in(refs: Seq<(u64, Ustr)>, task: u64) -> bool {
    exists|i: int| 0 <= i < refs.len() && (#[trigger] refs[i]).0 == task
}

/// Those of the first `k` references that name a task function for the first
/// time: none that is recorded, nor one named before.
pub open spec fn fresh_refs<M: PlanModel>(
    tasks: Seq<TaskEntry<M>>,
    refs: Seq<(u64, Ustr)>,
    k: nat,
) -> Seq<(u64, Ustr)>
    decreases k,
{
    if k == 0 {
        Seq::empty()
    } else {
        let before = fresh_refs(tasks, refs, (k - 1) as nat);
        let next = refs[k - 1];
        if recorded(tasks, SubtaskRef::Fn(next.0)) || named_in(before, next.0) {
            before
        } else {
            before.push(next)
        }
    }
}

proof fn lemma_fresh_prefix<M: PlanModel>(
    tasks: Seq<TaskEntry<M>>,
    a: Seq<(u64, Ustr)>,
    b: Seq<(u64, Ustr)>,
    k: nat,
)
    requires
        k <= a.len(),
        k <= b.len(),
        forall|i: int| 0 <= i < k ==> a[i] == b[i],
    ensures
        fresh_refs(tasks, a, k) == fresh_refs(tasks, b, k),
    decreases k,
{
    if k > 0 {
        lemma_fresh_prefix(tasks, a, b, (k - 1) as nat);
    }
}

/// Whether recording `b` is recording `a` with the queue worked off: `drafts`
/// are what the functions declared that were reached for the first time, in the
/// order in which they were reached, breadth first.
pub open spec fn expansion<M: PlanModel, S: TaskSource<M>>(
    source: S,
    a: Recorder<M>,
    b: Recorder<M>,
    drafts: Seq<TaskBuilder<M>>,
) -> bool {
    let n = a.tasks@.len();
    let refs = a.queue@ + drafts_refs(drafts);
    let fresh = fresh_refs(a.tasks@, refs, refs.len());
    &&& b.tasks@.len() == n + drafts.len()
    &&& b.tasks@.take(n as int) == a.tasks@
    &&& fresh.len() == drafts.len()
    &&& forall|i: int|
        0 <= i < drafts.len() ==> {
            let entry = #[trigger] b.tasks@[n + i];
            &&& entry.id == SubtaskRef::Fn(fresh[i].0)
            &&& entry.name == fresh[i].1
            &&& source.may_declare(fresh[i].0, drafts[i])
            &&& compiled_task(b.registry.slots@, drafts[i], entry.proto)
        }
    &&& b.registry.slots@ == registered_all(
        a.registry.slots@,
        drafts_params(drafts),
        drafts_params(drafts).len(),
    )
    &&& b.queue@.len() == 0
    &&& texts(b.errors@) == texts(a.errors@) + drafts_errors(drafts)
    &&& twice_added(b.effect_errors@, a.effect_errors@, drafts_twice(drafts))
    &&& b.next_synthetic == a.next_synthetic
    &&& b.shares@ == a.shares@
    &&& b.insertables@ == a.insertables@
    &&& b.insertion == a.insertion
    &&& b.extra_roots@ == a.extra_roots@
}

proof fn lemma_twice_added_twice(c: Seq<String>, b: Seq<String>, a: Seq<String>, n: nat, m: nat)
    requires
        twice_added(b, a, n),
        twice_added(c, b, m),
    ensures
        twice_added(c, a, n + m),
{
    assert(c.take(a.len() as int) =~= c.take(b.len() as int).take(a.len() as int));
    assert forall|i: int| a.len() <= i < c.len() implies (#[trigger] c[i])@ == twice_message() by {
        if i < b.len() {
            assert(c.take(b.len() as int)[i] == c[i]);
        }
    }
}

proof fn lemma_compiled_is_authored<M: PlanModel>(
    slots: Seq<SlotInfo>,
    draft: TaskBuilder<M>,
    proto: TaskProto<M>,
)
    requires
        compiled_task(slots, draft, proto),
    ensures
        authored(proto),
{
    if let TaskProto::Primitive { preconditions, effects, expected_effects, action, cost } = proto {
        assert forall|i: int| 0 <= i < preconditions@.len() implies (#[trigger] preconditions@[i]).check
            is Body by {
            assert(compiled_check(slots, draft.preconditions@[i], preconditions@[i]));
        }
    }
}

proof fn lemma_error_texts(errors: Seq<String>, before: Seq<String>, added: Option<Seq<char>>)
    requires
        error_added(errors, before, added),
    ensures
        texts(errors) == (match added {
            Some(entry) => texts(before).push(entry),
            None => texts(before),
        }),
{
    if added is Some {
        let entry = added->Some_0;
        assert forall|i: int| 0 <= i < before.len() implies texts(errors)[i] == texts(before)[i] by {
            assert(errors.take(before.len() as int)[i] == errors[i]);
        }
        assert(texts(errors) =~= texts(before).push(entry));
    }
}

/// Members stay known as tasks are recorded and queued.
proof fn lemma_members_still_known<M: PlanModel>(
    tasks: Seq<TaskEntry<M>>,
    queue: Seq<(u64, Ustr)>,
    more: Seq<TaskEntry<M>>,
    longer: Seq<(u64, Ustr)>,
    proto: TaskProto<M>,
)
    requires
        members_known(tasks, queue, proto),
        tasks.len() <= more.len(),
        forall|i: int| 0 <= i < tasks.len() ==> more[i] == #[trigger] tasks[i],
        forall|id: u64|
            #[trigger] queued(queue, id) ==> queued(longer, id) || recorded(
                more,
                SubtaskRef::Fn(id),
            ),
    ensures
        members_known(more, longer, proto),
{
    if let TaskProto::Compound { methods, policy } = proto {
        assert forall|m: int, k: int|
            0 <= m < methods@.len() && 0 <= k < methods@[m].subtasks@.len() implies {
            let r = (#[trigger] methods@[m].subtasks@[k]).task;
            recorded(more, r) || (r matches SubtaskRef::Fn(id) && queued(longer, id))
        } by {
            let r = methods@[m].subtasks@[k].task;
            if recorded(tasks, r) {
                let i = choose|i: int| 0 <= i < tasks.len() && (#[trigger] tasks[i]).id == r;
                assert(more[i] == tasks[i]);
            }
        }
    }
}

/// The members of a task that was just recorded are queued.
proof fn lemma_draft_members_queued<M: PlanModel>(after: Recorder<M>, draft: TaskBuilder<M>)
    requires
        after.tasks@.len() > 0,
        compiled_task(after.registry.slots@, draft, after.tasks@.last().proto),
        after.queue@.len() >= draft_refs(draft).len(),
        after.queue@.skip(after.queue@.len() - draft_refs(draft).len()) == draft_refs(draft),
    ensures
        members_known(after.tasks@, after.queue@, after.tasks@.last().proto),
{
    let proto = after.tasks@.last().proto;
    if let TaskProto::Compound { methods, policy } = proto {
        let base = after.queue@.len() - draft_refs(draft).len();
        assert forall|m: int, k: int|
            0 <= m < methods@.len() && 0 <= k < methods@[m].subtasks@.len() implies {
            let r = (#[trigger] methods@[m].subtasks@[k]).task;
            recorded(after.tasks@, r) || (r matches SubtaskRef::Fn(id) && queued(
                after.queue@,
                id,
            ))
        } by {
            assert(compiled_method(after.registry.slots@, draft.methods@[m], methods@[m]));
            let at = lemma_ref_position(draft.methods@, draft.methods@.len(), m, k);
            assert(draft_refs(draft)[at].0 == draft.methods@[m].subtasks@[k].task);
            assert(after.queue@[base + at] == draft_refs(draft)[at]);
        }
    }
}

proof fn lemma_ref_position<M: PlanModel>(
    decls: Seq<MethodBuilder<M>>,
    n: nat,
    m: int,
    k: int,
) -> (at: int)
    requires
        0 <= m < n <= decls.len(),
        0 <= k < decls[m].subtasks@.len(),
    ensures
        0 <= at < methods_refs(decls, n).len(),
        methods_refs(decls, n)[at].0 == decls[m].subtasks@[k].task,
    decreases n,
{
    let before = methods_refs(decls, (n - 1) as nat);
    if m == n - 1 {
        before.len() + k
    } else {
        lemma_ref_position(decls, (n - 1) as nat, m, k)
    }
}

impl<M: PlanModel> Recorder<M> {
    /// Works off the queue: every queued task function that is not recorded yet
    /// is recorded once, under the name of its first reference; what it refers
    /// to is queued behind. Repeated and recursive references are edges.
    pub fn expand<S: TaskSource<M>>(&mut self, source: &S)
        requires
            old(self).wf(),
        ensures
            final(self).wf(),
            exists|drafts: Seq<TaskBuilder<M>>|
                #[trigger] expansion(*source, *old(self), *final(self), drafts),
    {
        let ghost a = *self;
        let ghost mut drafts: Seq<TaskBuilder<M>> = Seq::empty();
        let ghost mut done: nat = 0;
        proof {
            assert(a.tasks@.take(a.tasks@.len() as int) =~= a.tasks@);
            assert(self.effect_errors@.take(self.effect_errors@.len() as int)
                =~= self.effect_errors@);
            assert(a.queue@ + drafts_refs(drafts) =~= a.queue@);
            assert(a.queue@.skip(0) =~= a.queue@);
            assert(texts(a.errors@) + drafts_errors(drafts) =~= texts(a.errors@));
        }
        while self.queue.len() > 0
            invariant
                self.wf(),
                done <= (a.queue@ + drafts_refs(drafts)).len(),
                self.queue@ == (a.queue@ + drafts_refs(drafts)).skip(done as int),
                self.tasks@.len() == a.tasks@.len() + drafts.len(),
                self.tasks@.take(a.tasks@.len() as int) == a.tasks@,
                fresh_refs(a.tasks@, a.queue@ + drafts_refs(drafts), done).len() == drafts.len(),
                forall|i: int|
                    0 <= i < drafts.len() ==> {
                        let entry = #[trigger] self.tasks@[a.tasks@.len() + i];
                        let fresh = fresh_refs(a.tasks@, a.queue@ + drafts_refs(drafts), done);
                        &&& entry.id == SubtaskRef::Fn(fresh[i].0)
                        &&& entry.name == fresh[i].1
                        &&& source.may_declare(fresh[i].0, drafts[i])
                        &&& compiled_task(self.registry.slots@, drafts[i], entry.proto)
                    },
                self.registry.slots@ == registered_all(
                    a.registry.slots@,
                    drafts_params(drafts),
                    drafts_params(drafts).len(),
                ),
                texts(self.errors@) == texts(a.errors@) + drafts_errors(drafts),
                twice_added(self.effect_errors@, a.effect_errors@, drafts_twice(drafts)),
                self.next_synthetic == a.next_synthetic,
                self.shares@ == a.shares@,
                self.insertables@ == a.insertables@,
                self.insertion == a.insertion,
                self.extra_roots@ == a.extra_roots@,
            decreases usize::MAX - self.tasks@.len(), self.queue@.len(),
        {
            let ghost before = *self;
            let ghost refs = a.queue@ + drafts_refs(drafts);
            let ghost fresh = fresh_refs(a.tasks@, refs, done);
            let (task, name) = self.queue.pop_front().unwrap();
            assert((task, name) == refs[done as int]);
            assert(self.queue@ =~= refs.skip((done + 1) as int));
            let known = find_entry(&self.tasks, SubtaskRef::Fn(task)).is_some();
            proof {
                assert(self.tasks.len() <= usize::MAX);
                lemma_entry_found(self.tasks@, SubtaskRef::Fn(task), 0);
                // A function is recorded where it was recorded at the start, or
                // was reached since.
                assert(known == (recorded(a.tasks@, SubtaskRef::Fn(task)) || named_in(fresh, task)))
                    by {
                    if known {
                        let i = entry_of(self.tasks@, SubtaskRef::Fn(task))->Some_0 as int;
                        if i < a.tasks@.len() {
                            assert(self.tasks@.take(a.tasks@.len() as int)[i] == a.tasks@[i]);
                            assert(a.tasks@[i].id == SubtaskRef::Fn(task));
                        } else {
                            let j = i - a.tasks@.len();
                            assert(self.tasks@[a.tasks@.len() + j].id == SubtaskRef::Fn(
                                fresh[j].0,
                            ));
                            assert(fresh[j].0 == task);
                        }
                    }
                    if recorded(a.tasks@, SubtaskRef::Fn(task)) {
                        let i = choose|i: int|
                            0 <= i < a.tasks@.len() && (#[trigger] a.tasks@[i]).id
                                == SubtaskRef::Fn(task);
                        assert(self.tasks@.take(a.tasks@.len() as int)[i] == a.tasks@[i]);
                        assert(self.tasks@[i].id == SubtaskRef::Fn(task));
                    }
                    if named_in(fresh, task) {
                        let j = choose|j: int|
                            0 <= j < fresh.len() && (#[trigger] fresh[j]).0 == task;
                        assert(self.tasks@[a.tasks@.len() + j].id == SubtaskRef::Fn(fresh[j].0));
                    }
                }
            }
            if known {
                proof {
                    assert(fresh_refs(a.tasks@, refs, done + 1) == fresh);
                    done = done + 1;
                    let r = SubtaskRef::Fn(task);
                    let at = entry_of(self.tasks@, r)->Some_0 as int;
                    assert(self.tasks@[at].id == r);
                    assert(recorded(self.tasks@, r));
                    lemma_pop_keeps_wf(before, *self, task);
                }
                continue;
            }
            let mut builder: TaskBuilder<M> = TaskBuilder::new();
            source.record(task, &mut builder);
            let ghost draft = builder;
            let ghost mid = *self;
            self.record(task, name, builder);
            proof {
                let more = drafts.push(draft);
                assert(more.drop_last() =~= drafts);
                let refs2 = a.queue@ + drafts_refs(more);
                assert(refs2 =~= refs + draft_refs(draft));
                lemma_fresh_prefix(a.tasks@, refs, refs2, done + 1);
                let fresh2 = fresh_refs(a.tasks@, refs2, done + 1);
                assert(fresh2 == fresh.push((task, name)));
                assert(self.queue@ =~= refs2.skip((done + 1) as int));
                // Everything recorded before is still what it was.
                assert forall|i: int| 0 <= i < mid.tasks@.len() implies self.tasks@[i]
                    == mid.tasks@[i] by {
                    assert(self.tasks@.drop_last()[i] == mid.tasks@[i]);
                }
                assert(self.tasks@.take(a.tasks@.len() as int) =~= mid.tasks@.take(
                    a.tasks@.len() as int,
                ));
                assert forall|i: int| 0 <= i < more.len() implies {
                    let entry = #[trigger] self.tasks@[a.tasks@.len() + i];
                    &&& entry.id == SubtaskRef::Fn(fresh2[i].0)
                    &&& entry.name == fresh2[i].1
                    &&& source.may_declare(fresh2[i].0, more[i])
                    &&& compiled_task(self.registry.slots@, more[i], entry.proto)
                } by {
                    if i < drafts.len() {
                        let entry = mid.tasks@[a.tasks@.len() + i];
                        assert(self.tasks@[a.tasks@.len() + i] == entry);
                        lemma_task_stays(
                            self.registry.slots@,
                            mid.registry.slots@,
                            drafts[i],
                            entry.proto,
                        );
                    }
                }
                lemma_registered_concat(
                    a.registry.slots@,
                    drafts_params(drafts),
                    draft_params(draft),
                    draft_params(draft).len(),
                );
                lemma_twice_added_twice(
                    self.effect_errors@,
                    mid.effect_errors@,
                    a.effect_errors@,
                    drafts_twice(drafts),
                    draft_twice(draft),
                );
                lemma_error_texts(self.errors@, mid.errors@, draft_error(draft));
                assert(drafts_errors(more) == (match draft_error(draft) {
                    Some(entry) => drafts_errors(drafts).push(entry),
                    None => drafts_errors(drafts),
                }));
                assert(texts(self.errors@) =~= texts(a.errors@) + drafts_errors(more));
                assert(self.tasks.len() <= usize::MAX);
                lemma_popped_record_keeps_wf(before, mid, *self, task, draft);
                drafts = more;
                done = done + 1;
            }
        }
        proof {
            let refs = a.queue@ + drafts_refs(drafts);
            assert(done == refs.len());
            assert(expansion(*source, *old(self), *self, drafts));
        }
    }
}

/// Popping a function that is recorded keeps the recording consistent.
proof fn lemma_pop_keeps_wf<M: PlanModel>(before: Recorder<M>, after: Recorder<M>, task: u64)
    requires
        before.wf(),
        after.tasks@ == before.tasks@,
        after.registry.slots@ == before.registry.slots@,
        before.queue@.len() > 0,
        before.queue@[0].0 == task,
        after.queue@ == before.queue@.skip(1),
        recorded(before.tasks@, SubtaskRef::Fn(task)),
        after.next_synthetic == before.next_synthetic,
    ensures
        after.wf(),
{
    assert forall|id: u64| #[trigger] queued(before.queue@, id) implies queued(after.queue@, id)
        || recorded(after.tasks@, SubtaskRef::Fn(id)) by {
        let q = choose|q: int|
            0 <= q < before.queue@.len() && (#[trigger] before.queue@[q]).0 == id;
        if q > 0 {
            assert(after.queue@[q - 1].0 == id);
        }
    }
    assert forall|i: int| 0 <= i < after.tasks@.len() implies members_known(
        after.tasks@,
        after.queue@,
        (#[trigger] after.tasks@[i]).proto,
    ) by {
        lemma_members_still_known(
            before.tasks@,
            before.queue@,
            after.tasks@,
            after.queue@,
            before.tasks@[i].proto,
        );
    }
}

/// Popping a function and recording it keeps the recording consistent.
proof fn lemma_popped_record_keeps_wf<M: PlanModel>(
    before: Recorder<M>,
    mid: Recorder<M>,
    after: Recorder<M>,
    task: u64,
    draft: TaskBuilder<M>,
)
    requires
        before.wf(),
        mid.tasks@ == before.tasks@,
        mid.registry.slots@ == before.registry.slots@,
        before.queue@.len() > 0,
        before.queue@[0].0 == task,
        mid.queue@ == before.queue@.skip(1),
        !recorded(before.tasks@, SubtaskRef::Fn(task)),
        after.tasks@.len() == mid.tasks@.len() + 1,
        after.tasks@.drop_last() == mid.tasks@,
        after.tasks@.last().id == SubtaskRef::Fn(task),
        compiled_task(after.registry.slots@, draft, after.tasks@.last().proto),
        proto_fits(after.tasks@.last().proto, after.registry.slots@.len()),
        mid.registry.slots@.len() <= after.registry.slots@.len(),
        after.queue@ == mid.queue@ + draft_refs(draft),
        after.next_synthetic == before.next_synthetic,
    ensures
        after.wf(),
{
    let n = before.tasks@.len();
    assert forall|i: int| 0 <= i < n implies after.tasks@[i] == before.tasks@[i] by {
        assert(after.tasks@.drop_last()[i] == mid.tasks@[i]);
    }
    assert forall|i: int, j: int| 0 <= i < j < after.tasks@.len() implies (
    #[trigger] after.tasks@[i]).id != (#[trigger] after.tasks@[j]).id by {
        assert(after.tasks@[i] == before.tasks@[i]);
        if j < n {
            assert(after.tasks@[j] == before.tasks@[j]);
        }
    }
    assert forall|i: int| 0 <= i < after.tasks@.len() implies authored(
        (#[trigger] after.tasks@[i]).proto,
    ) && (after.tasks@[i].id matches SubtaskRef::Synthetic(s) ==> s < after.next_synthetic) by {
        if i < n {
            assert(after.tasks@[i] == before.tasks@[i]);
        } else {
            lemma_compiled_is_authored(after.registry.slots@, draft, after.tasks@[i].proto);
        }
    }
    assert forall|i: int| 0 <= i < after.tasks@.len() implies proto_fits(
        (#[trigger] after.tasks@[i]).proto,
        after.registry.slots@.len(),
    ) by {
        if i < n {
            assert(after.tasks@[i] == before.tasks@[i]);
            lemma_proto_fits_grows(
                before.tasks@[i].proto,
                before.registry.slots@.len(),
                after.registry.slots@.len(),
            );
        }
    }
    assert forall|id: u64| #[trigger] queued(before.queue@, id) implies queued(after.queue@, id)
        || recorded(after.tasks@, SubtaskRef::Fn(id)) by {
        let q = choose|q: int|
            0 <= q < before.queue@.len() && (#[trigger] before.queue@[q]).0 == id;
        if q > 0 {
            assert(after.queue@[q - 1] == before.queue@[q]);
        } else {
            assert(after.tasks@[n as int].id == SubtaskRef::Fn(id));
        }
    }
    assert forall|i: int| 0 <= i < after.tasks@.len() implies members_known(
        after.tasks@,
        after.queue@,
        (#[trigger] after.tasks@[i]).proto,
    ) by {
        if i < n {
            assert(after.tasks@[i] == before.tasks@[i]);
            lemma_members_still_known(
                before.tasks@,
                before.queue@,
                after.tasks@,
                after.queue@,
                before.tasks@[i].proto,
            );
        } else {
            assert(after.queue@.skip(after.queue@.len() - draft_refs(draft).len())
                =~= draft_refs(draft));
            lemma_draft_members_queued(after, draft);
        }
    }
}

/// Asking for slots adds slots.
pub proof fn lemma_registered_extends(slots: Seq<SlotInfo>, params: Seq<Param>, k: nat)
    ensures
        extends(registered_all(slots, params, k), slots),
    decreases k,
{
    if k > 0 {
        lemma_registered_extends(slots, params, (k - 1) as nat);
    }
}

/// The first reference is fresh where nothing is recorded.
pub proof fn lemma_first_is_fresh<M: PlanModel>(
    tasks: Seq<TaskEntry<M>>,
    refs: Seq<(u64, Ustr)>,
    k: nat,
)
    requires
        tasks.len() == 0,
        0 < k <= refs.len(),
    ensures
        fresh_refs(tasks, refs, k).len() > 0,
        fresh_refs(tasks, refs, k)[0] == refs[0],
    decreases k,
{
    if k > 1 {
        lemma_first_is_fresh(tasks, refs, (k - 1) as nat);
    } else {
        assert(fresh_refs(tasks, refs, 0) =~= Seq::<(u64, Ustr)>::empty());
    }
}

/// Every component type that is asked for has a slot, and no two slots are for the
/// same one: slots are added for what is new alone, and those from before stay
/// where they are.
pub proof fn every_component_has_one_slot(slots: Seq<SlotInfo>, params: Seq<Param>, k: nat)
    requires
        k <= params.len(),
        slots.len() + k < usize::MAX,
    ensures
        ({
            let after = registered_all(slots, params, k);
            &&& slots.len() <= after.len() <= slots.len() + k
            &&& forall|i: int| 0 <= i < slots.len() ==> #[trigger] after[i] == slots[i]
            &&& forall|i: int|
                0 <= i < k ==> exists|j: int|
                    0 <= j < after.len() && (#[trigger] after[j]).key == SlotKey::Component(
                        (#[trigger] params[i]).key,
                    )
            &&& forall|j: int|
                slots.len() <= j < after.len() ==> exists|i: int|
                    0 <= i < k && (#[trigger] after[j]).key == SlotKey::Component(
                        (#[trigger] params[i]).key,
                    )
            &&& (forall|i: int, j: int|
                0 <= i < j < slots.len() ==> (#[trigger] slots[i]).key != (#[trigger] slots[j]).key)
                ==> forall|i: int, j: int|
                0 <= i < j < after.len() ==> (#[trigger] after[i]).key != (#[trigger] after[j]).key
        }),
    decreases k,
{
    if k > 0 {
        every_component_has_one_slot(slots, params, (k - 1) as nat);
        let before = registered_all(slots, params, (k - 1) as nat);
        let after = registered_all(slots, params, k);
        let info = SlotInfo {
            key: SlotKey::Component(params[k - 1].key),
            name: params[k - 1].name,
        };
        registering_moves_no_slot(before, info);
        let at = registered_at(before, info.key) as int;
        assert forall|i: int| 0 <= i < k implies exists|j: int|
            0 <= j < after.len() && (#[trigger] after[j]).key == SlotKey::Component(
                (#[trigger] params[i]).key,
            ) by {
            if i < k - 1 {
                let j = choose|j: int|
                    0 <= j < before.len() && (#[trigger] before[j]).key == SlotKey::Component(
                        params[i].key,
                    );
                assert(after[j] == before[j]);
            } else {
                assert(after[at].key == info.key);
            }
        }
        assert forall|j: int| slots.len() <= j < after.len() implies exists|i: int|
            0 <= i < k && (#[trigger] after[j]).key == SlotKey::Component((#[trigger] params[i]).key) by {
            if j < before.len() {
                assert(after[j] == before[j]);
                let i = choose|i: int|
                    0 <= i < k - 1 && before[j].key == SlotKey::Component(
                        (#[trigger] params[i]).key,
                    );
                assert(after[j].key == SlotKey::Component(params[i].key));
            } else {
                assert(after[j].key == SlotKey::Component(params[k - 1].key));
            }
        }
        if forall|i: int, j: int|
            0 <= i < j < slots.len() ==> (#[trigger] slots[i]).key != (#[trigger] slots[j]).key {
            assert forall|i: int, j: int| 0 <= i < j < after.len() implies (#[trigger] after[i]).key
                != (#[trigger] after[j]).key by {
                assert(after[i] == before[i]);
                if j < before.len() {
                    assert(after[j] == before[j]);
                }
            }
        }
    }
}

/// How many of the first `i` flags are set.
pub open spec fn set_among(flags: Seq<bool>, i: nat) -> nat
    decreases i,
{
    if i == 0 {
        0
    } else {
        set_among(flags, (i - 1) as nat) + if i - 1 < flags.len() && flags[i - 1] {
            1nat
        } else {
            0nat
        }
    }
}

/// A compiled effect writes exactly the parameters that are declared to be
/// written, in their order: each stands behind those before it.
pub proof fn effects_write_the_declared_parameters<M: PlanModel>(
    slots: Seq<SlotInfo>,
    decl: EffectDecl<M>,
    e: Effect<M>,
    i: int,
)
    requires
        compiled_effect(slots, decl, e),
        0 <= i < decl.params@.len(),
    ensures
        e.params@.len() == decl.params@.len(),
        e.writes@.len() == set_among(decl.writes@, decl.params@.len()),
        i < decl.writes@.len() && decl.writes@[i] ==> {
            let at = set_among(decl.writes@, i as nat) as int;
            at < e.writes@.len() && e.writes@[at] == e.params@[i]
        },
        slot_of(slots, SlotKey::Component(decl.params@[i].key)) == Some(e.params@[i]),
{
    lemma_flagged_at(e.params@, decl.writes@, i, e.params@.len());
    assert(decl.params@[i] == decl.params@[i]);
}

proof fn lemma_flagged_at(list: Seq<usize>, flags: Seq<bool>, i: int, k: nat)
    requires
        0 <= i < k <= list.len(),
    ensures
        flagged(list, flags, k).len() == set_among(flags, k),
        set_among(flags, i as nat) <= set_among(flags, k),
        i < flags.len() && flags[i] ==> set_among(flags, i as nat) < flagged(list, flags, k).len()
            && flagged(list, flags, k)[set_among(flags, i as nat) as int] == list[i],
    decreases k,
{
    lemma_flagged_len(list, flags, (k - 1) as nat);
    if i < k - 1 {
        lemma_flagged_at(list, flags, i, (k - 1) as nat);
    }
}

proof fn lemma_flagged_len(list: Seq<usize>, flags: Seq<bool>, k: nat)
    requires
        k <= list.len(),
    ensures
        flagged(list, flags, k).len() == set_among(flags, k),
    decreases k,
{
    if k > 0 {
        lemma_flagged_len(list, flags, (k - 1) as nat);
    }
}

/// Each task function is recorded once: of the references, those are fresh that
/// name a function which is neither recorded nor named before, in order, and no
/// function is among them twice.
pub proof fn functions_are_recorded_once<M: PlanModel>(
    tasks: Seq<TaskEntry<M>>,
    refs: Seq<(u64, Ustr)>,
    k: nat,
)
    requires
        k <= refs.len(),
    ensures
        ({
            let fresh = fresh_refs(tasks, refs, k);
            &&& forall|i: int, j: int|
                0 <= i < j < fresh.len() ==> (#[trigger] fresh[i]).0 != (#[trigger] fresh[j]).0
            &&& forall|i: int|
                0 <= i < fresh.len() ==> !recorded(tasks, SubtaskRef::Fn((#[trigger] fresh[i]).0))
            &&& forall|i: int|
                0 <= i < fresh.len() ==> exists|j: int|
                    0 <= j < k && (#[trigger] refs[j]) == (#[trigger] fresh[i]) && forall|h: int|
                        0 <= h < j ==> (#[trigger] refs[h]).0 != refs[j].0
            &&& forall|j: int|
                0 <= j < k ==> recorded(tasks, SubtaskRef::Fn((#[trigger] refs[j]).0)) || named_in(
                    fresh,
                    refs[j].0,
                )
        }),
    decreases k,
{
    if k > 0 {
        functions_are_recorded_once(tasks, refs, (k - 1) as nat);
        let before = fresh_refs(tasks, refs, (k - 1) as nat);
        let fresh = fresh_refs(tasks, refs, k);
        let next = refs[k - 1];
        assert forall|task: u64| named_in(before, task) implies #[trigger] named_in(fresh, task) by {
            let i = choose|i: int| 0 <= i < before.len() && (#[trigger] before[i]).0 == task;
            assert(fresh[i].0 == task);
        }
        if fresh != before {
            assert(fresh[before.len() as int] == next);
            assert forall|h: int| 0 <= h < k - 1 implies (#[trigger] refs[h]).0 != next.0 by {
                if refs[h].0 == next.0 {
                    assert(named_in(before, refs[h].0));
                }
            }
            assert forall|i: int, j: int| 0 <= i < j < fresh.len() implies (#[trigger] fresh[i]).0
                != (#[trigger] fresh[j]).0 by {
                if j == before.len() {
                    assert(before[i].0 != next.0);
                } else {
                    assert(before[i].0 != before[j].0);
                }
            }
            assert forall|i: int| 0 <= i < fresh.len() implies exists|j: int|
                0 <= j < k && (#[trigger] refs[j]) == (#[trigger] fresh[i]) && forall|h: int|
                    0 <= h < j ==> (#[trigger] refs[h]).0 != refs[j].0 by {
                if i < before.len() {
                    let j = choose|j: int|
                        0 <= j < k - 1 && (#[trigger] refs[j]) == before[i] && forall|h: int|
                            0 <= h < j ==> (#[trigger] refs[h]).0 != refs[j].0;
                    assert(refs[j] == fresh[i]);
                } else {
                    assert(refs[k - 1] == fresh[i]);
                }
            }
        }
    }
}

/// A task function's declarations are refused exactly where they mix the two kinds
/// of task: branches together with what a primitive declares, or a policy to
/// select branches without branches.
pub proof fn mixed_declarations_are_refused<M: PlanModel>(draft: TaskBuilder<M>)
    ensures
        draft_error(draft) is Some <==> {
            ||| draft.methods@.len() > 0 && (draft.preconditions@.len() > 0
                || draft.effects@.len() > 0 || draft.expected_effects@.len() > 0
                || draft.action is Some)
            ||| draft.methods@.len() == 0 && draft.selection is Some
        },
{
}

/// A compiled precondition checks what was declared: the author's body, on the
/// values of the component types that it names, in the order in which it names
/// them.
pub proof fn compiled_checks_read_the_declared_components<M: PlanModel>(
    slots: Seq<SlotInfo>,
    decl: CheckDecl<M>,
    p: Precondition<M>,
    s: ModelState<M>,
)
    requires
        compiled_check(slots, decl, p),
    ensures
        p.holds(s) == M::check_holds(
            decl.check,
            Seq::new(
                decl.params@.len(),
                |i: int|
                    s[slot_of(slots, SlotKey::Component(decl.params@[i].key))->Some_0 as int],
            ),
        ),
{
    assert(gather(s, p.reads@) =~= Seq::new(
        decl.params@.len(),
        |i: int| s[slot_of(slots, SlotKey::Component(decl.params@[i].key))->Some_0 as int],
    )) by {
        assert forall|i: int| 0 <= i < decl.params@.len() implies s[p.reads@[i] as int] == s[slot_of(
            slots,
            SlotKey::Component((#[trigger] decl.params@[i]).key),
        )->Some_0 as int] by {}
    }
}

/// A recorded task is what its function declared: with branches it is a compound
/// task with as many, each with its name, preconditions and members in order, and
/// it selects by the declared policy, or takes the first match; without, it is a
/// primitive with the declared preconditions, effects, expected effects, action
/// and cost.
pub proof fn recorded_tasks_are_as_declared<M: PlanModel>(
    slots: Seq<SlotInfo>,
    draft: TaskBuilder<M>,
    proto: TaskProto<M>,
    i: int,
    k: int,
)
    requires
        compiled_task(slots, draft, proto),
    ensures
        proto is Compound == (draft.methods@.len() > 0),
        proto matches TaskProto::Compound { methods, policy } ==> {
            &&& methods@.len() == draft.methods@.len()
            &&& draft.selection matches Some(p) ==> policy == p
            &&& draft.selection is None ==> policy is FirstMatch
            &&& 0 <= i < methods@.len() ==> {
                &&& methods@[i].name == draft.methods@[i].name
                &&& methods@[i].utility == draft.methods@[i].utility
                &&& methods@[i].preconditions@.len() == draft.methods@[i].preconditions@.len()
                &&& methods@[i].subtasks@.len() == draft.methods@[i].subtasks@.len()
                &&& 0 <= k < methods@[i].subtasks@.len() ==> methods@[i].subtasks@[k].task
                    == SubtaskRef::Fn(draft.methods@[i].subtasks@[k].task)
                    && methods@[i].subtasks@[k].chained == draft.methods@[i].subtasks@[k].chained
                &&& methods@[i].unordered == draft.methods@[i].unordered
                &&& methods@[i].edges@ == draft.methods@[i].edges@
                &&& methods@[i].pause_positions@ == draft.methods@[i].pause_positions@
            }
        },
        proto matches TaskProto::Primitive {
            preconditions,
            effects,
            expected_effects,
            action,
            cost,
        } ==> {
            &&& preconditions@.len() == draft.preconditions@.len()
            &&& effects@.len() == draft.effects@.len()
            &&& expected_effects@.len() == draft.expected_effects@.len()
            &&& 0 <= i < effects@.len() ==> effects@[i].body == EffectBody::<M>::Body(
                draft.effects@[i].mutator,
            )
            &&& 0 <= i < expected_effects@.len() ==> expected_effects@[i].body
                == EffectBody::<M>::Body(draft.expected_effects@[i].mutator)
            &&& action == draft.action
            &&& cost == draft.cost
        },
{
    if let TaskProto::Compound { methods, policy } = proto {
        if 0 <= i < methods@.len() {
            assert(compiled_method(slots, draft.methods@[i], methods@[i]));
        }
    }
    if let TaskProto::Primitive { preconditions, effects, expected_effects, action, cost } = proto {
        if 0 <= i < effects@.len() {
            assert(compiled_effect(slots, draft.effects@[i], effects@[i]));
        }
        if 0 <= i < expected_effects@.len() {
            assert(compiled_effect(slots, draft.expected_effects@[i], expected_effects@[i]));
        }
    }
}

} // verus!
