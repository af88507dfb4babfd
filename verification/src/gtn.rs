//! Task sharing and task insertion, compiled into the plain network while a
//! domain is built.
//!
//! **Sharing** makes a primitive run at most once per plan. It gets an expected
//! effect that sets a completion marker, and every reference to it is replaced
//! by a wrapper with two branches: `done`, with an empty body, where the marker
//! is set or one of the primitive's own preconditions fails, and `do`, which
//! runs the primitive where the marker is not set.
//!
//! **Insertion** lets registered primitives run in the gaps between the members
//! of a totally-ordered branch. Every gap gets a made-up task whose first branch
//! is empty, so insertions are only tried on backtrack. Pause markers stay
//! between the members that they were declared between.

use crate::domain::SelectionPolicy;
use crate::error::{HtnError, HtnResult};
use crate::model::{
    all_hold, covered, CompiledCheck, Effect, EffectBody, Gate, ModelState, PlanModel, Precondition,
};
use crate::names::{intern, name_text, text_of};
use crate::recording::{
    authored, entry_from, entry_of, find_entry, lemma_entry_found, lemma_proto_fits_grows,
    members_known, method_fits, proto_fits, queued, recorded, MemberProto, MethodProto, Recorder,
    SubtaskRef, TaskEntry, TaskProto,
};
use crate::state::{
    copy_indices, in_range, is_marked, registered, registered_at, SlotInfo, SlotKey,
};
use crate::text::{join2, join3};
use ustr::Ustr;
use vstd::prelude::*;

verus! {

/// A shared task function and the wrapper that stands for it.
#[derive(Clone, Copy, Debug)]
pub struct Sharing {
    /// The shared task function.
    pub task: u64,
    /// The wrapper.
    pub wrapper: SubtaskRef,
    /// The wrapper's name.
    pub name: Ustr,
}

/// The last of the first `k` sharings of what `r` refers to.
pub open spec fn sharing_of(sharings: Seq<Sharing>, r: SubtaskRef, k: nat) -> Option<int>
    decreases k,
{
    if k == 0 {
        None
    } else if SubtaskRef::Fn(sharings[k - 1].task) == r {
        Some(k - 1)
    } else {
        sharing_of(sharings, r, (k - 1) as nat)
    }
}

fn find_sharing(sharings: &Vec<Sharing>, r: SubtaskRef) -> (found: Option<usize>)
    ensures
        match found {
            Some(i) => sharing_of(sharings@, r, sharings@.len()) == Some(i as int) && i
                < sharings@.len(),
            None => sharing_of(sharings@, r, sharings@.len()) is None,
        },
{
    let mut k: usize = sharings.len();
    while k > 0
        invariant
            k <= sharings@.len(),
            sharing_of(sharings@, r, sharings@.len()) == sharing_of(sharings@, r, k as nat),
        decreases k,
    {
        k = k - 1;
        if SubtaskRef::Fn(sharings[k].task) == r {
            return Some(k);
        }
    }
    None
}

/// A member with a shared task replaced by its wrapper.
pub open spec fn rerouted(member: MemberProto, sharings: Seq<Sharing>) -> MemberProto {
    match sharing_of(sharings, member.task, sharings.len()) {
        Some(i) => MemberProto { task: sharings[i].wrapper, name: sharings[i].name, ..member },
        None => member,
    }
}

/// Members with shared tasks replaced by their wrappers.
pub open spec fn rerouted_all(members: Seq<MemberProto>, sharings: Seq<Sharing>) -> Seq<
    MemberProto,
> {
    Seq::new(members.len(), |i: int| rerouted(members[i], sharings))
}

/// Whether two branches differ in nothing but their members.
pub open spec fn same_but_members<M: PlanModel>(a: MethodProto<M>, b: MethodProto<M>) -> bool {
    b == (MethodProto { subtasks: b.subtasks, ..a })
}

fn reroute_members(members: &mut Vec<MemberProto>, sharings: &Vec<Sharing>)
    ensures
        final(members)@ == rerouted_all(old(members)@, sharings@),
{
    let ghost before = members@;
    let n: usize = members.len();
    for i in 0..n
        invariant
            n == before.len(),
            members@.len() == before.len(),
            forall|k: int|
                0 <= k < before.len() ==> (#[trigger] members@[k]) == (if k < i {
                    rerouted(before[k], sharings@)
                } else {
                    before[k]
                }),
    {
        let member = members[i];
        match find_sharing(sharings, member.task) {
            Some(s) => {
                members.set(
                    i,
                    MemberProto {
                        task: sharings[s].wrapper,
                        name: sharings[s].name,
                        chained: member.chained,
                    },
                );
            },
            None => {},
        }
    }
    assert(members@ =~= rerouted_all(before, sharings@));
}

fn reroute_methods<M: PlanModel>(methods: &mut Vec<MethodProto<M>>, sharings: &Vec<Sharing>)
    ensures
        final(methods)@.len() == old(methods)@.len(),
        forall|i: int|
            0 <= i < final(methods)@.len() ==> same_but_members(
                old(methods)@[i],
                #[trigger] final(methods)@[i],
            ) && final(methods)@[i].subtasks@ == rerouted_all(
                old(methods)@[i].subtasks@,
                sharings@,
            ),
{
    let ghost before = methods@;
    let n: usize = methods.len();
    for i in 0..n
        invariant
            n == before.len(),
            methods@.len() == before.len(),
            forall|k: int|
                0 <= k < i ==> same_but_members(before[k], #[trigger] methods@[k])
                    && methods@[k].subtasks@ == rerouted_all(before[k].subtasks@, sharings@),
            forall|k: int| i <= k < before.len() ==> (#[trigger] methods@[k]) == before[k],
    {
        reroute_members(&mut methods[i].subtasks, sharings);
    }
}

/// Whether an effect marks the shared task with ordinal `id`.
pub open spec fn is_mark<M: PlanModel>(e: Effect<M>, slot: usize, id: nat) -> bool {
    &&& e.body == (EffectBody::<M>::Mark { slot, id: id as usize })
    &&& e.params@.len() == 0
    &&& e.writes@ == seq![slot]
}

/// The ordinals below `k` of the requests to share what `r` refers to.
pub open spec fn ordinals(shares: Seq<u64>, r: SubtaskRef, k: nat) -> Seq<nat>
    decreases k,
{
    if k == 0 {
        Seq::empty()
    } else {
        let before = ordinals(shares, r, (k - 1) as nat);
        if SubtaskRef::Fn(shares[k - 1]) == r {
            before.push((k - 1) as nat)
        } else {
            before
        }
    }
}

/// Whether `b` is entry `a` with a marker effect for each of the first `k`
/// requests to share it.
pub open spec fn marked<M: PlanModel>(
    a: TaskEntry<M>,
    b: TaskEntry<M>,
    shares: Seq<u64>,
    k: nat,
    slot: usize,
) -> bool {
    let ids = ordinals(shares, a.id, k);
    &&& b.id == a.id
    &&& b.name == a.name
    &&& match (a.proto, b.proto) {
        (
            TaskProto::Primitive { preconditions, effects, expected_effects, action, cost },
            TaskProto::Primitive {
                preconditions: ps,
                effects: es,
                expected_effects: more,
                action: act,
                cost: c,
            },
        ) => {
            &&& ps == preconditions
            &&& es == effects
            &&& act == action
            &&& c == cost
            &&& more@.len() == expected_effects@.len() + ids.len()
            &&& forall|i: int|
                0 <= i < expected_effects@.len() ==> (#[trigger] more@[i]) == expected_effects@[i]
            &&& forall|i: int|
                0 <= i < ids.len() ==> is_mark(
                    #[trigger] more@[expected_effects@.len() + i],
                    slot,
                    ids[i],
                )
        },
        _ => b.proto == a.proto,
    }
}

/// `reads` and those of the first `k` of `more` that are not listed yet.
pub open spec fn with_reads(reads: Seq<usize>, more: Seq<usize>, k: nat) -> Seq<usize>
    decreases k,
{
    if k == 0 {
        reads
    } else {
        let before = with_reads(reads, more, (k - 1) as nat);
        if before.contains(more[k - 1]) {
            before
        } else {
            before.push(more[k - 1])
        }
    }
}

/// The slots that the completion test of a shared task reads: the marker slot
/// and whatever its own first `k` preconditions read.
pub open spec fn done_reads<M: PlanModel>(slot: usize, ps: Seq<Precondition<M>>, k: nat) -> Seq<
    usize,
>
    decreases k,
{
    if k == 0 {
        seq![slot]
    } else {
        with_reads(
            done_reads(slot, ps, (k - 1) as nat),
            ps[k - 1].reads@,
            ps[k - 1].reads@.len(),
        )
    }
}

/// Whether a precondition is the completion test of a shared task.
pub open spec fn is_done_check<M: PlanModel>(
    p: Precondition<M>,
    slot: usize,
    id: nat,
    ps: Seq<Precondition<M>>,
) -> bool {
    &&& p.reads@ == done_reads(slot, ps, ps.len())
    &&& p.check matches CompiledCheck::SharedDone { slot: s, id: i, gates } && s == slot && i == id
        && gates@.len() == ps.len() && forall|g: int|
        0 <= g < ps.len() ==> ps[g].check == CompiledCheck::<M>::Body(
            (#[trigger] gates@[g]).check,
        ) && gates@[g].reads@ == ps[g].reads@
}

/// Whether a branch declares nothing but a name, preconditions and members.
pub open spec fn bare<M: PlanModel>(m: MethodProto<M>) -> bool {
    &&& m.utility is None
    &&& !m.unordered
    &&& m.edges@.len() == 0
    &&& m.pause_positions@.len() == 0
}

/// Whether a branch has this name.
pub open spec fn is_named<M: PlanModel>(m: MethodProto<M>, name: Seq<char>) -> bool {
    m.name matches Some(n) && text_of(n) == name
}

/// Whether an entry is the wrapper of a shared primitive.
pub open spec fn is_wrapper<M: PlanModel>(
    entry: TaskEntry<M>,
    orig: TaskEntry<M>,
    wrapper: SubtaskRef,
    id: nat,
    slot: usize,
) -> bool {
    &&& entry.id == wrapper
    &&& text_of(entry.name) == "gtn/shared:"@ + text_of(orig.name)
    &&& entry.proto matches TaskProto::Compound { methods, policy } && {
        &&& policy is FirstMatch
        &&& methods@.len() == 2
        &&& bare(methods@[0])
        &&& is_named(methods@[0], "done"@)
        &&& methods@[0].subtasks@.len() == 0
        &&& methods@[0].preconditions@.len() == 1
        &&& is_done_check(
            methods@[0].preconditions@[0],
            slot,
            id,
            orig.proto->Primitive_preconditions@,
        )
        &&& bare(methods@[1])
        &&& is_named(methods@[1], "do"@)
        &&& methods@[1].preconditions@.len() == 1
        &&& methods@[1].preconditions@[0].reads@ == seq![slot]
        &&& methods@[1].preconditions@[0].check == (CompiledCheck::<M>::SharedOpen {
            slot,
            id: id as usize,
        })
        &&& methods@[1].subtasks@ == seq![
            MemberProto { task: orig.id, name: orig.name, chained: true },
        ]
    }
}

/// What is wrong with a request to share a task function, if anything.
pub open spec fn share_error<M: PlanModel>(tasks: Seq<TaskEntry<M>>, task: u64) -> Option<
    Seq<char>,
> {
    match entry_of(tasks, SubtaskRef::Fn(task)) {
        None => Some("share_task: task function not recorded (was it referenced via `.then`?)"@),
        Some(i) => if tasks[i as int].proto is Primitive {
            None
        } else {
            Some("share_task: `"@ + text_of(tasks[i as int].name) + "` is not a primitive task"@)
        },
    }
}

/// What is wrong with the first wrong request from `k` on, if any is.
pub open spec fn first_share_error<M: PlanModel>(
    tasks: Seq<TaskEntry<M>>,
    shares: Seq<u64>,
    k: nat,
) -> Option<Seq<char>>
    decreases shares.len() - k,
{
    if k >= shares.len() {
        None
    } else {
        match share_error(tasks, shares[k as int]) {
            Some(e) => Some(e),
            None => first_share_error(tasks, shares, k + 1),
        }
    }
}

/// The copies of preconditions' bodies that a completion test looks at.
fn copy_gates<M: PlanModel>(ps: &Vec<Precondition<M>>) -> (gates: Vec<Gate<M>>)
    requires
        forall|i: int| 0 <= i < ps@.len() ==> (#[trigger] ps@[i]).check is Body,
    ensures
        gates@.len() == ps@.len(),
        forall|g: int|
            0 <= g < ps@.len() ==> ps@[g].check == CompiledCheck::<M>::Body(
                (#[trigger] gates@[g]).check,
            ) && gates@[g].reads@ == ps@[g].reads@,
{
    let mut gates: Vec<Gate<M>> = Vec::new();
    for i in 0..ps.len()
        invariant
            forall|k: int| 0 <= k < ps@.len() ==> (#[trigger] ps@[k]).check is Body,
            gates@.len() == i,
            forall|g: int|
                0 <= g < i ==> ps@[g].check == CompiledCheck::<M>::Body(
                    (#[trigger] gates@[g]).check,
                ) && gates@[g].reads@ == ps@[g].reads@,
    {
        assert(ps@[i as int].check is Body);
        match &ps[i].check {
            CompiledCheck::Body(c) => {
                gates.push(Gate { check: M::clone_check(c), reads: copy_indices(&ps[i].reads) });
            },
            _ => {},
        }
    }
    gates
}

pub(crate) fn holds_index(list: &Vec<usize>, x: usize) -> (b: bool)
    ensures
        b == list@.contains(x),
{
    for i in 0..list.len()
        invariant
            forall|k: int| 0 <= k < i ==> list@[k] != x,
    {
        if list[i] == x {
            return true;
        }
    }
    false
}

proof fn lemma_with_reads(reads: Seq<usize>, more: Seq<usize>, k: nat)
    requires
        k <= more.len(),
    ensures
        forall|x: usize| reads.contains(x) ==> #[trigger] with_reads(reads, more, k).contains(x),
        forall|i: int|
            0 <= i < k ==> with_reads(reads, more, k).contains(#[trigger] more[i]),
        forall|n: nat|
            in_range(reads, n) && in_range(more, n) ==> #[trigger] in_range(
                with_reads(reads, more, k),
                n,
            ),
    decreases k,
{
    if k > 0 {
        lemma_with_reads(reads, more, (k - 1) as nat);
        let before = with_reads(reads, more, (k - 1) as nat);
        let all = with_reads(reads, more, k);
        assert forall|x: usize| before.contains(x) implies #[trigger] all.contains(x) by {
            let i = before.index_of(x);
            assert(all[i] == x);
        }
        assert(all.contains(more[k - 1])) by {
            if !before.contains(more[k - 1]) {
                assert(all[all.len() - 1] == more[k - 1]);
            }
        }
        assert forall|n: nat| in_range(reads, n) && in_range(more, n) implies #[trigger] in_range(
            all,
            n,
        ) by {
            assert(in_range(before, n));
            assert(more[k - 1] < n);
        }
    }
}

proof fn lemma_done_reads<M: PlanModel>(slot: usize, ps: Seq<Precondition<M>>, k: nat)
    requires
        k <= ps.len(),
    ensures
        done_reads(slot, ps, k).contains(slot),
        forall|i: int|
            0 <= i < k ==> covered((#[trigger] ps[i]).reads@, done_reads(slot, ps, k)),
        forall|n: nat|
            slot < n && crate::model::all_fit(ps, n) ==> #[trigger] in_range(
                done_reads(slot, ps, k),
                n,
            ),
    decreases k,
{
    if k == 0 {
        assert(seq![slot][0] == slot);
    } else {
        lemma_done_reads(slot, ps, (k - 1) as nat);
        let before = done_reads(slot, ps, (k - 1) as nat);
        let more = ps[k - 1].reads@;
        lemma_with_reads(before, more, more.len());
        let all = done_reads(slot, ps, k);
        assert forall|i: int| 0 <= i < k implies covered((#[trigger] ps[i]).reads@, all) by {
            assert forall|j: int| 0 <= j < ps[i].reads@.len() implies all.contains(
                #[trigger] ps[i].reads@[j],
            ) by {
                if i < k - 1 {
                    assert(covered(ps[i].reads@, before));
                    assert(before.contains(ps[i].reads@[j]));
                }
            }
        }
        assert forall|n: nat| slot < n && crate::model::all_fit(ps, n) implies #[trigger] in_range(
            all,
            n,
        ) by {
            assert(in_range(before, n));
            assert(ps[k - 1].wf(n));
        }
    }
}

/// The slots that the completion test of a shared task reads.
fn collect_done_reads<M: PlanModel>(slot: usize, ps: &Vec<Precondition<M>>) -> (reads: Vec<usize>)
    ensures
        reads@ == done_reads(slot, ps@, ps@.len()),
{
    let mut reads: Vec<usize> = Vec::new();
    reads.push(slot);
    assert(reads@ =~= seq![slot]);
    for i in 0..ps.len()
        invariant
            reads@ == done_reads(slot, ps@, i as nat),
    {
        let more = &ps[i].reads;
        let ghost before = reads@;
        for j in 0..more.len()
            invariant
                reads@ == with_reads(before, more@, j as nat),
        {
            if !holds_index(&reads, more[j]) {
                reads.push(more[j]);
            }
        }
    }
    reads
}

/// A branch that declares nothing but a name, preconditions and members.
fn bare_method<M: PlanModel>(
    name: &str,
    preconditions: Vec<Precondition<M>>,
    subtasks: Vec<MemberProto>,
) -> (m: MethodProto<M>)
    ensures
        bare(m),
        is_named(m, name@),
        m.preconditions == preconditions,
        m.subtasks == subtasks,
{
    MethodProto {
        name: Some(intern(name)),
        utility: None,
        preconditions,
        subtasks,
        unordered: false,
        edges: Vec::new(),
        pause_positions: Vec::new(),
    }
}

/// The wrapper of a shared primitive.
fn make_wrapper<M: PlanModel>(
    orig: &TaskEntry<M>,
    wrapper: SubtaskRef,
    id: usize,
    slot: usize,
) -> (entry: TaskEntry<M>)
    requires
        orig.proto is Primitive,
        authored(orig.proto),
    ensures
        is_wrapper(entry, *orig, wrapper, id as nat, slot),
{
    let text = join2("gtn/shared:", name_text(orig.name));
    let name = intern(text.as_str());
    let mut methods: Vec<MethodProto<M>> = Vec::new();
    match &orig.proto {
        TaskProto::Primitive { preconditions, effects, expected_effects, action, cost } => {
            let done = Precondition {
                check: CompiledCheck::SharedDone { slot, id, gates: copy_gates(preconditions) },
                reads: collect_done_reads(slot, preconditions),
            };
            assert(is_done_check(done, slot, id as nat, preconditions@));
            let mut done_checks: Vec<Precondition<M>> = Vec::new();
            done_checks.push(done);
            methods.push(bare_method("done", done_checks, Vec::new()));
            let mut open_reads: Vec<usize> = Vec::new();
            open_reads.push(slot);
            assert(open_reads@ =~= seq![slot]);
            let mut open_checks: Vec<Precondition<M>> = Vec::new();
            open_checks.push(
                Precondition { check: CompiledCheck::SharedOpen { slot, id }, reads: open_reads },
            );
            let mut members: Vec<MemberProto> = Vec::new();
            members.push(MemberProto { task: orig.id, name: orig.name, chained: true });
            assert(members@ =~= seq![
                MemberProto { task: orig.id, name: orig.name, chained: true },
            ]);
            methods.push(bare_method("do", open_checks, members));
        },
        _ => {},
    }
    TaskEntry {
        id: wrapper,
        name,
        proto: TaskProto::Compound { methods, policy: SelectionPolicy::FirstMatch },
    }
}

/// Marks a primitive: it sets its completion marker when it is simulated.
fn add_mark<M: PlanModel>(entry: &mut TaskEntry<M>, slot: usize, id: usize)
    requires
        old(entry).proto is Primitive,
    ensures
        final(entry).id == old(entry).id,
        final(entry).name == old(entry).name,
        final(entry).proto is Primitive,
        final(entry).proto->Primitive_preconditions == old(entry).proto->Primitive_preconditions,
        final(entry).proto->Primitive_effects == old(entry).proto->Primitive_effects,
        final(entry).proto->Primitive_action == old(entry).proto->Primitive_action,
        final(entry).proto->Primitive_cost == old(entry).proto->Primitive_cost,
        final(entry).proto->Primitive_expected_effects@.len()
            == old(entry).proto->Primitive_expected_effects@.len() + 1,
        final(entry).proto->Primitive_expected_effects@.drop_last()
            == old(entry).proto->Primitive_expected_effects@,
        is_mark(final(entry).proto->Primitive_expected_effects@.last(), slot, id as nat),
{
    let mut writes: Vec<usize> = Vec::new();
    writes.push(slot);
    assert(writes@ =~= seq![slot]);
    let e = Effect { body: EffectBody::Mark { slot, id }, params: Vec::new(), writes };
    match &mut entry.proto {
        TaskProto::Primitive { preconditions, effects, expected_effects, action, cost } => {
            let ghost before = expected_effects@;
            expected_effects.push(e);
            assert(expected_effects@.drop_last() =~= before);
        },
        _ => {},
    }
}

/// Whether `b` is entry `a` after sharing: marked for every request to share it,
/// and with shared members replaced by their wrappers.
pub open spec fn shared_entry<M: PlanModel>(
    a: TaskEntry<M>,
    b: TaskEntry<M>,
    shares: Seq<u64>,
    slot: usize,
    sharings: Seq<Sharing>,
) -> bool {
    match (a.proto, b.proto) {
        (
            TaskProto::Compound { methods, policy },
            TaskProto::Compound { methods: ms, policy: p },
        ) => {
            &&& b.id == a.id
            &&& b.name == a.name
            &&& p == policy
            &&& ms@.len() == methods@.len()
            &&& forall|i: int|
                0 <= i < ms@.len() ==> same_but_members(methods@[i], #[trigger] ms@[i])
                    && ms@[i].subtasks@ == (if a.id is Fn {
                    rerouted_all(methods@[i].subtasks@, sharings)
                } else {
                    methods@[i].subtasks@
                })
        },
        _ => marked(a, b, shares, shares.len(), slot),
    }
}

/// Whether recording `b` is recording `a` with its sharing requests compiled in.
pub open spec fn shared<M: PlanModel>(
    a: Recorder<M>,
    b: Recorder<M>,
    sharings: Seq<Sharing>,
) -> bool {
    let n = a.tasks@.len();
    let shares = a.shares@;
    let slot = registered_at(a.registry.slots@, SlotKey::SharedMarks);
    &&& exists|name: Ustr|
        text_of(name) == "SharedMarks"@ && b.registry.slots@ == #[trigger] registered(
            a.registry.slots@,
            SlotInfo { key: SlotKey::SharedMarks, name },
        )
    &&& b.tasks@.len() == n + shares.len()
    &&& forall|i: int|
        0 <= i < n ==> shared_entry(a.tasks@[i], #[trigger] b.tasks@[i], shares, slot, sharings)
    &&& sharings.len() == shares.len()
    &&& forall|j: int|
        0 <= j < shares.len() ==> (#[trigger] sharings[j]) == (Sharing {
            task: shares[j],
            wrapper: SubtaskRef::Synthetic((a.next_synthetic + j) as u32),
            name: b.tasks@[n + j].name,
        })
    &&& forall|j: int|
        0 <= j < shares.len() ==> is_wrapper(
            #[trigger] b.tasks@[n + j],
            a.tasks@[entry_of(a.tasks@, SubtaskRef::Fn(shares[j]))->Some_0 as int],
            SubtaskRef::Synthetic((a.next_synthetic + j) as u32),
            j as nat,
            slot,
        )
    &&& b.next_synthetic == a.next_synthetic + shares.len()
    &&& b.queue@ == a.queue@
    &&& b.errors@ == a.errors@
    &&& b.effect_errors@ == a.effect_errors@
    &&& b.shares@.len() == 0
    &&& b.insertables@ == a.insertables@
    &&& b.insertion == a.insertion
    &&& b.extra_roots@ == a.extra_roots@
}

/// A function's index does not change as made-up tasks are added.
proof fn lemma_entries_alike<M: PlanModel>(
    a: Seq<TaskEntry<M>>,
    b: Seq<TaskEntry<M>>,
    r: SubtaskRef,
    k: nat,
)
    requires
        r is Fn,
        a.len() <= b.len(),
        forall|i: int| 0 <= i < a.len() ==> (#[trigger] b[i]).id == a[i].id,
        forall|i: int| a.len() <= i < b.len() ==> (#[trigger] b[i]).id is Synthetic,
    ensures
        entry_from(b, r, k) == entry_from(a, r, k),
    decreases b.len() - k,
{
    if k < b.len() {
        assert(k < a.len() ==> b[k as int].id == a[k as int].id);
        assert(k >= a.len() ==> b[k as int].id is Synthetic);
        if b[k as int].id != r {
            lemma_entries_alike(a, b, r, k + 1);
        }
    }
}

/// Compiles the sharing requests into the recording. The result lists the shared
/// task functions with their wrappers.
pub fn apply_sharing<M: PlanModel>(rec: &mut Recorder<M>) -> (result: HtnResult<Vec<Sharing>>)
    requires
        old(rec).wf(),
        old(rec).next_synthetic + old(rec).shares@.len() <= u32::MAX,
    ensures
        match result {
            Ok(sharings) => {
                &&& first_share_error(old(rec).tasks@, old(rec).shares@, 0) is None
                &&& final(rec).wf()
                &&& if old(rec).shares@.len() == 0 {
                    *final(rec) == *old(rec) && sharings@.len() == 0
                } else {
                    shared(*old(rec), *final(rec), sharings@)
                }
            },
            Err(e) => first_share_error(old(rec).tasks@, old(rec).shares@, 0) matches Some(text)
                && e.is_builder(text),
        },
{
    let mut sharings: Vec<Sharing> = Vec::new();
    if rec.shares.len() == 0 {
        return Ok(sharings);
    }
    let ghost a = *rec;
    let ghost n = a.tasks@.len();
    let mut requests: Vec<u64> = Vec::new();
    std::mem::swap(&mut requests, &mut rec.shares);
    let marks_name = intern("SharedMarks");
    let slot: usize = rec.registry.index(SlotKey::SharedMarks, marks_name);
    for j in 0..requests.len()
        invariant
            a == *old(rec),
            a.wf(),
            n == a.tasks@.len(),
            requests@ == a.shares@,
            a.next_synthetic + requests@.len() <= u32::MAX,
            slot == registered_at(a.registry.slots@, SlotKey::SharedMarks),
            first_share_error(a.tasks@, a.shares@, 0) == first_share_error(
                a.tasks@,
                a.shares@,
                j as nat,
            ),
            rec.tasks@.len() == n + j,
            forall|i: int|
                0 <= i < n ==> marked(
                    a.tasks@[i],
                    #[trigger] rec.tasks@[i],
                    a.shares@,
                    j as nat,
                    slot,
                ),
            forall|t: int|
                n <= t < n + j ==> (#[trigger] rec.tasks@[t]).id == SubtaskRef::Synthetic(
                    (a.next_synthetic + (t - n)) as u32,
                ),
            sharings@.len() == j,
            forall|t: int|
                0 <= t < j ==> (#[trigger] sharings@[t]) == (Sharing {
                    task: a.shares@[t],
                    wrapper: SubtaskRef::Synthetic((a.next_synthetic + t) as u32),
                    name: rec.tasks@[n + t].name,
                }),
            forall|t: int|
                0 <= t < j ==> is_wrapper(
                    #[trigger] rec.tasks@[n + t],
                    a.tasks@[entry_of(a.tasks@, SubtaskRef::Fn(a.shares@[t]))->Some_0 as int],
                    SubtaskRef::Synthetic((a.next_synthetic + t) as u32),
                    t as nat,
                    slot,
                ),
            forall|t: int| 0 <= t < j ==> share_error(a.tasks@, #[trigger] a.shares@[t]) is None,
            rec.registry.slots@ == registered(
                a.registry.slots@,
                SlotInfo { key: SlotKey::SharedMarks, name: marks_name },
            ),
            rec.next_synthetic == a.next_synthetic + j,
            rec.queue@ == a.queue@,
            rec.errors@ == a.errors@,
            rec.effect_errors@ == a.effect_errors@,
            rec.shares@.len() == 0,
            rec.insertables@ == a.insertables@,
            rec.insertion == a.insertion,
            rec.extra_roots@ == a.extra_roots@,
    {
        let task: u64 = requests[j];
        let r = SubtaskRef::Fn(task);
        proof {
            assert forall|i: int| 0 <= i < n implies (#[trigger] rec.tasks@[i]).id
                == a.tasks@[i].id by {
                assert(marked(a.tasks@[i], rec.tasks@[i], a.shares@, j as nat, slot));
            }
            lemma_entries_alike(a.tasks@, rec.tasks@, r, 0);
        }
        let idx: usize = match find_entry(&rec.tasks, r) {
            Some(idx) => idx,
            None => {
                return Err(
                    HtnError::builder(
                        "share_task: task function not recorded (was it referenced via `.then`?)".to_owned(),
                    ),
                );
            },
        };
        assert(idx < n) by {
            if idx >= n {
                assert(rec.tasks@[idx as int].id is Synthetic);
            }
        }
        let ghost before = rec.tasks@;
        assert(marked(a.tasks@[idx as int], before[idx as int], a.shares@, j as nat, slot));
        let primitive = match &rec.tasks[idx].proto {
            TaskProto::Primitive { .. } => true,
            TaskProto::Compound { .. } => false,
        };
        if !primitive {
            let text = join3(
                "share_task: `",
                name_text(rec.tasks[idx].name),
                "` is not a primitive task",
            );
            return Err(HtnError::builder(text));
        }
        let wrapper = SubtaskRef::Synthetic(rec.next_synthetic);
        assert(authored(a.tasks@[idx as int].proto));
        let entry = make_wrapper(&rec.tasks[idx], wrapper, j, slot);
        add_mark(&mut rec.tasks[idx], slot, j);
        sharings.push(Sharing { task, wrapper, name: entry.name });
        rec.tasks.push(entry);
        rec.next_synthetic = rec.next_synthetic + 1;
        proof {
            assert forall|i: int| 0 <= i < n implies marked(
                a.tasks@[i],
                #[trigger] rec.tasks@[i],
                a.shares@,
                (j + 1) as nat,
                slot,
            ) by {
                assert(marked(a.tasks@[i], before[i], a.shares@, j as nat, slot));
                if i == idx {
                    let old_effects = before[i].proto->Primitive_expected_effects@;
                    let new_effects = rec.tasks@[i].proto->Primitive_expected_effects@;
                    assert forall|k: int| 0 <= k < old_effects.len() implies new_effects[k]
                        == old_effects[k] by {
                        assert(new_effects.drop_last()[k] == old_effects[k]);
                    }
                    let base = a.tasks@[i].proto->Primitive_expected_effects@.len();
                    let ids = ordinals(a.shares@, a.tasks@[i].id, (j + 1) as nat);
                    let fewer = ordinals(a.shares@, a.tasks@[i].id, j as nat);
                    assert(ids == fewer.push(j as nat));
                    assert forall|k: int| 0 <= k < ids.len() implies is_mark(
                        #[trigger] new_effects[base + k],
                        slot,
                        ids[k],
                    ) by {
                        if k < fewer.len() {
                            assert(is_mark(old_effects[base + k], slot, fewer[k]));
                        }
                    }
                } else {
                    assert(rec.tasks@[i] == before[i]);
                    assert(a.tasks@[i].id != a.tasks@[idx as int].id);
                }
            }
            assert forall|t: int| n <= t < n + j + 1 implies (#[trigger] rec.tasks@[t]).id
                == SubtaskRef::Synthetic((a.next_synthetic + (t - n)) as u32) by {
                if t < n + j {
                    assert(rec.tasks@[t] == before[t]);
                }
            }
            assert forall|t: int| 0 <= t < j + 1 implies is_wrapper(
                #[trigger] rec.tasks@[n + t],
                a.tasks@[entry_of(a.tasks@, SubtaskRef::Fn(a.shares@[t]))->Some_0 as int],
                SubtaskRef::Synthetic((a.next_synthetic + t) as u32),
                t as nat,
                slot,
            ) by {
                if t < j {
                    assert(rec.tasks@[n + t] == before[n + t]);
                }
            }
            assert forall|t: int| 0 <= t < j + 1 implies (#[trigger] sharings@[t]) == (Sharing {
                task: a.shares@[t],
                wrapper: SubtaskRef::Synthetic((a.next_synthetic + t) as u32),
                name: rec.tasks@[n + t].name,
            }) by {
                if t < j {
                    assert(rec.tasks@[n + t] == before[n + t]);
                }
            }
        }
    }
    let ghost mid = *rec;
    let m: usize = rec.tasks.len();
    for i in 0..m
        invariant
            a.wf(),
            n == a.tasks@.len(),
            m == n + a.shares@.len(),
            mid.tasks@.len() == m,
            rec.tasks@.len() == m,
            forall|t: int|
                0 <= t < n ==> marked(
                    a.tasks@[t],
                    #[trigger] mid.tasks@[t],
                    a.shares@,
                    a.shares@.len(),
                    slot,
                ),
            forall|t: int| n <= t < m ==> (#[trigger] mid.tasks@[t]).id is Synthetic,
            forall|t: int| i <= t < m ==> (#[trigger] rec.tasks@[t]) == mid.tasks@[t],
            forall|t: int| n <= t < m ==> (#[trigger] rec.tasks@[t]) == mid.tasks@[t],
            forall|t: int|
                0 <= t < n && t < i ==> shared_entry(
                    a.tasks@[t],
                    #[trigger] rec.tasks@[t],
                    a.shares@,
                    slot,
                    sharings@,
                ),
            *rec == (Recorder { tasks: rec.tasks, ..mid }),
    {
        let ghost before = rec.tasks@;
        assert(rec.tasks@[i as int] == mid.tasks@[i as int]);
        assert(i < n ==> marked(
            a.tasks@[i as int],
            mid.tasks@[i as int],
            a.shares@,
            a.shares@.len(),
            slot,
        ));
        let authored_task = match rec.tasks[i].id {
            SubtaskRef::Fn(_) => true,
            SubtaskRef::Synthetic(_) => false,
        };
        if authored_task {
            match &mut rec.tasks[i].proto {
                TaskProto::Compound { methods, policy } => {
                    reroute_methods(methods, &sharings);
                },
                _ => {},
            }
        } else {
            assert(i < n ==> shared_entry(
                a.tasks@[i as int],
                rec.tasks@[i as int],
                a.shares@,
                slot,
                sharings@,
            )) by {
                if i < n {
                    if let TaskProto::Compound { methods, policy } = a.tasks@[i as int].proto {
                        let ms = rec.tasks@[i as int].proto->methods;
                        assert(ms == methods);
                        assert forall|k: int| 0 <= k < ms@.len() implies same_but_members(
                            methods@[k],
                            #[trigger] ms@[k],
                        ) by {}
                    }
                }
            }
        }
        assert forall|t: int| 0 <= t < n && t < i + 1 implies shared_entry(
            a.tasks@[t],
            #[trigger] rec.tasks@[t],
            a.shares@,
            slot,
            sharings@,
        ) by {
            if t < i {
                assert(rec.tasks@[t] == before[t]);
            }
        }
    }
    proof {
        assert forall|j: int| 0 <= j < a.shares@.len() implies is_wrapper(
            rec.tasks@[n + j],
            a.tasks@[entry_of(a.tasks@, SubtaskRef::Fn(a.shares@[j]))->Some_0 as int],
            SubtaskRef::Synthetic((a.next_synthetic + j) as u32),
            j as nat,
            slot,
        ) by {
            assert(rec.tasks@[n + j] == mid.tasks@[n + j]);
        }
        assert forall|j: int| 0 <= j < a.shares@.len() implies (#[trigger] sharings@[j])
            == (Sharing {
            task: a.shares@[j],
            wrapper: SubtaskRef::Synthetic((a.next_synthetic + j) as u32),
            name: rec.tasks@[n + j].name,
        }) by {
            assert(rec.tasks@[n + j] == mid.tasks@[n + j]);
        }
        let info = SlotInfo { key: SlotKey::SharedMarks, name: marks_name };
        assert(rec.registry.slots@ == registered(a.registry.slots@, info));
        assert(shared(a, *rec, sharings@));
        assert(a.registry.slots.len() <= usize::MAX);
        assert(rec.registry.slots.len() <= usize::MAX);
        assert(a.tasks.len() <= usize::MAX);
        assert(a.shares.len() <= usize::MAX);
        lemma_shared_wf(a, *rec, sharings@);
    }
    Ok(sharings)
}

/// Sharing keeps a recording consistent.
proof fn lemma_shared_wf<M: PlanModel>(a: Recorder<M>, b: Recorder<M>, sharings: Seq<Sharing>)
    requires
        a.wf(),
        shared(a, b, sharings),
        a.next_synthetic + a.shares@.len() <= u32::MAX,
        a.shares@.len() <= usize::MAX,
        a.tasks@.len() <= usize::MAX,
        a.registry.slots@.len() <= usize::MAX,
        b.registry.slots@.len() <= usize::MAX,
        forall|t: int|
            0 <= t < a.shares@.len() ==> share_error(a.tasks@, #[trigger] a.shares@[t]) is None,
    ensures
        b.wf(),
{
    let n = a.tasks@.len();
    let shares = a.shares@;
    let slot = registered_at(a.registry.slots@, SlotKey::SharedMarks);
    let wide = b.registry.slots@.len();
    assert(slot < wide && a.registry.slots@.len() <= wide) by {
        crate::state::lemma_slot_found(a.registry.slots@, SlotKey::SharedMarks, 0);
    }
    assert forall|i: int| 0 <= i < n implies (#[trigger] b.tasks@[i]).id == a.tasks@[i].id by {
        assert(shared_entry(a.tasks@[i], b.tasks@[i], shares, slot, sharings));
    }
    assert forall|j: int| 0 <= j < shares.len() implies (#[trigger] b.tasks@[n + j]).id
        == SubtaskRef::Synthetic((a.next_synthetic + j) as u32) by {}
    assert forall|i: int, j: int| 0 <= i < j < b.tasks@.len() implies (#[trigger] b.tasks@[i]).id
        != (#[trigger] b.tasks@[j]).id by {
        if i >= n {
            assert(b.tasks@[n + (i - n)].id == SubtaskRef::Synthetic(
                (a.next_synthetic + (i - n)) as u32,
            ));
        } else {
            assert(b.tasks@[i].id == a.tasks@[i].id);
        }
        if j >= n {
            assert(b.tasks@[n + (j - n)].id == SubtaskRef::Synthetic(
                (a.next_synthetic + (j - n)) as u32,
            ));
        } else {
            assert(b.tasks@[j].id == a.tasks@[j].id);
        }
    }
    assert forall|r: SubtaskRef| #[trigger] recorded(a.tasks@, r) implies recorded(b.tasks@, r) by {
        let i = choose|i: int| 0 <= i < a.tasks@.len() && (#[trigger] a.tasks@[i]).id == r;
        assert(b.tasks@[i].id == r);
    }
    assert forall|i: int| 0 <= i < b.tasks@.len() implies authored((#[trigger] b.tasks@[i]).proto)
        && (b.tasks@[i].id matches SubtaskRef::Synthetic(s) ==> s < b.next_synthetic)
        && proto_fits(b.tasks@[i].proto, wide) && members_known(
        b.tasks@,
        b.queue@,
        b.tasks@[i].proto,
    ) by {
        if i < n {
            assert(shared_entry(a.tasks@[i], b.tasks@[i], shares, slot, sharings));
            lemma_proto_fits_grows(a.tasks@[i].proto, a.registry.slots@.len(), wide);
            lemma_shared_entry_ok(a, b, sharings, i);
        } else {
            let j = i - n;
            assert(shares[j] == a.shares@[j]);
            assert(share_error(a.tasks@, a.shares@[j]) is None);
            lemma_wrapper_ok(a, b, j, slot);
        }
    }
}

proof fn lemma_shared_entry_ok<M: PlanModel>(
    a: Recorder<M>,
    b: Recorder<M>,
    sharings: Seq<Sharing>,
    i: int,
)
    requires
        a.wf(),
        shared(a, b, sharings),
        0 <= i < a.tasks@.len(),
        a.shares@.len() <= usize::MAX,
        registered_at(a.registry.slots@, SlotKey::SharedMarks) < b.registry.slots@.len(),
        proto_fits(a.tasks@[i].proto, b.registry.slots@.len()),
        forall|r: SubtaskRef| #[trigger] recorded(a.tasks@, r) ==> recorded(b.tasks@, r),
        forall|j: int|
            0 <= j < a.shares@.len() ==> (#[trigger] b.tasks@[a.tasks@.len() + j]).id
                == SubtaskRef::Synthetic((a.next_synthetic + j) as u32),
    ensures
        authored(b.tasks@[i].proto),
        proto_fits(b.tasks@[i].proto, b.registry.slots@.len()),
        members_known(b.tasks@, b.queue@, b.tasks@[i].proto),
{
    let shares = a.shares@;
    let slot = registered_at(a.registry.slots@, SlotKey::SharedMarks);
    let wide = b.registry.slots@.len();
    assert(shared_entry(a.tasks@[i], b.tasks@[i], shares, slot, sharings));
    assert(authored(a.tasks@[i].proto));
    match (a.tasks@[i].proto, b.tasks@[i].proto) {
        (
            TaskProto::Compound { methods, policy },
            TaskProto::Compound { methods: ms, policy: p },
        ) => {
            assert forall|k: int| 0 <= k < ms@.len() implies method_fits(#[trigger] ms@[k], wide) by {
                assert(same_but_members(methods@[k], ms@[k]));
                assert(method_fits(methods@[k], wide));
            }
            assert(members_known(a.tasks@, a.queue@, a.tasks@[i].proto));
            assert forall|m: int, k: int|
                0 <= m < ms@.len() && 0 <= k < ms@[m].subtasks@.len() implies {
                let r = (#[trigger] ms@[m].subtasks@[k]).task;
                recorded(b.tasks@, r) || (r matches SubtaskRef::Fn(id) && queued(b.queue@, id))
            } by {
                assert(same_but_members(methods@[m], ms@[m]));
                let before = methods@[m].subtasks@[k];
                assert(recorded(a.tasks@, before.task) || (before.task matches SubtaskRef::Fn(id)
                    && queued(a.queue@, id)));
                let s = sharing_of(sharings, before.task, sharings.len());
                if a.tasks@[i].id is Fn && s is Some {
                    lemma_sharing_found(sharings, before.task, sharings.len());
                    let j = s->Some_0;
                    assert(sharings[j].wrapper == SubtaskRef::Synthetic(
                        (a.next_synthetic + j) as u32,
                    ));
                    assert(b.tasks@[a.tasks@.len() + j].id == sharings[j].wrapper);
                }
            }
        },
        (TaskProto::Primitive { .. }, TaskProto::Primitive { .. }) => {
            let old_effects = a.tasks@[i].proto->Primitive_expected_effects@;
            let new_effects = b.tasks@[i].proto->Primitive_expected_effects@;
            let ids = ordinals(shares, a.tasks@[i].id, shares.len());
            lemma_ordinals_below(shares, a.tasks@[i].id, shares.len());
            assert forall|k: int| 0 <= k < new_effects.len() implies (#[trigger] new_effects[k]).wf(
                wide,
            ) by {
                if k < old_effects.len() {
                    assert(new_effects[k] == old_effects[k]);
                } else {
                    let t = k - old_effects.len();
                    assert(is_mark(new_effects[old_effects.len() + t], slot, ids[t]));
                    assert(new_effects[k].writes@[0] == slot);
                }
            }
        },
        _ => {},
    }
}

proof fn lemma_sharing_found(sharings: Seq<Sharing>, r: SubtaskRef, k: nat)
    requires
        k <= sharings.len(),
    ensures
        sharing_of(sharings, r, k) matches Some(i) ==> 0 <= i < k && SubtaskRef::Fn(
            sharings[i].task,
        ) == r,
    decreases k,
{
    if k > 0 && SubtaskRef::Fn(sharings[k - 1].task) != r {
        lemma_sharing_found(sharings, r, (k - 1) as nat);
    }
}

proof fn lemma_ordinals_below(shares: Seq<u64>, r: SubtaskRef, k: nat)
    requires
        k <= shares.len(),
    ensures
        forall|i: int| 0 <= i < ordinals(shares, r, k).len() ==> (#[trigger] ordinals(
            shares,
            r,
            k,
        )[i]) < k,
    decreases k,
{
    if k > 0 {
        lemma_ordinals_below(shares, r, (k - 1) as nat);
        let before = ordinals(shares, r, (k - 1) as nat);
        let all = ordinals(shares, r, k);
        assert forall|i: int| 0 <= i < all.len() implies (#[trigger] all[i]) < k by {
            if i < before.len() {
                assert(all[i] == before[i]);
            }
        }
    }
}

proof fn lemma_wrapper_ok<M: PlanModel>(a: Recorder<M>, b: Recorder<M>, j: int, slot: usize)
    requires
        a.wf(),
        a.tasks@.len() <= usize::MAX,
        0 <= j < a.shares@.len(),
        share_error(a.tasks@, a.shares@[j]) is None,
        a.tasks@.len() + j < b.tasks@.len(),
        slot < b.registry.slots@.len(),
        a.registry.slots@.len() <= b.registry.slots@.len(),
        is_wrapper(
            b.tasks@[a.tasks@.len() + j],
            a.tasks@[entry_of(a.tasks@, SubtaskRef::Fn(a.shares@[j]))->Some_0 as int],
            SubtaskRef::Synthetic((a.next_synthetic + j) as u32),
            j as nat,
            slot,
        ),
        forall|r: SubtaskRef| #[trigger] recorded(a.tasks@, r) ==> recorded(b.tasks@, r),
    ensures
        authored(b.tasks@[a.tasks@.len() + j].proto),
        proto_fits(b.tasks@[a.tasks@.len() + j].proto, b.registry.slots@.len()),
        members_known(b.tasks@, b.queue@, b.tasks@[a.tasks@.len() + j].proto),
{
    let r = SubtaskRef::Fn(a.shares@[j]);
    lemma_entry_found(a.tasks@, r, 0);
    let idx = entry_of(a.tasks@, r)->Some_0 as int;
    let orig = a.tasks@[idx];
    let entry = b.tasks@[a.tasks@.len() + j];
    let wide = b.registry.slots@.len();
    let ps = orig.proto->Primitive_preconditions@;
    lemma_proto_fits_grows(orig.proto, a.registry.slots@.len(), wide);
    lemma_done_reads(slot, ps, ps.len());
    let methods = entry.proto->methods@;
    let done = methods[0].preconditions@[0];
    assert(in_range(done_reads(slot, ps, ps.len()), wide));
    assert(done.wf(wide)) by {
        let gates = done.check->gates@;
        assert forall|g: int| 0 <= g < gates.len() implies in_range(
            (#[trigger] gates[g]).reads@,
            wide,
        ) && covered(gates[g].reads@, done.reads@) by {
            assert(ps[g].wf(wide));
            assert(covered(ps[g].reads@, done_reads(slot, ps, ps.len())));
        }
    }
    let open = methods[1].preconditions@[0];
    assert(open.reads@[0] == slot);
    assert(open.wf(wide));
    assert forall|k: int| 0 <= k < methods.len() implies method_fits(#[trigger] methods[k], wide) by {
        assert forall|i: int| 0 <= i < methods[k].preconditions@.len() implies (
        #[trigger] methods[k].preconditions@[i]).wf(wide) by {}
    }
    assert(recorded(a.tasks@, r)) by {
        assert(a.tasks@[idx].id == r);
    }
    assert forall|m: int, k: int|
        0 <= m < methods.len() && 0 <= k < methods[m].subtasks@.len() implies {
        let q = (#[trigger] methods[m].subtasks@[k]).task;
        recorded(b.tasks@, q) || (q matches SubtaskRef::Fn(id) && queued(b.queue@, id))
    } by {
        assert(methods[m].subtasks@[k].task == r);
    }
}

/// What is wrong with a request to insert a task function, if anything.
pub open spec fn insertable_error<M: PlanModel>(tasks: Seq<TaskEntry<M>>, task: u64) -> Option<
    Seq<char>,
> {
    match entry_of(tasks, SubtaskRef::Fn(task)) {
        Some(i) if !(tasks[i as int].proto is Primitive) => Some(
            "insertable: `"@ + text_of(tasks[i as int].name) + "` is not a primitive task"@,
        ),
        _ => None,
    }
}

/// What is wrong with the first wrong request from `k` on, if any is.
pub open spec fn first_insertable_error<M: PlanModel>(
    tasks: Seq<TaskEntry<M>>,
    insertables: Seq<u64>,
    k: nat,
) -> Option<Seq<char>>
    decreases insertables.len() - k,
{
    if k >= insertables.len() {
        None
    } else {
        match insertable_error(tasks, insertables[k as int]) {
            Some(e) => Some(e),
            None => first_insertable_error(tasks, insertables, k + 1),
        }
    }
}

/// What the first `k` requests offer for insertion: each recorded function, or
/// its wrapper where it is shared.
pub open spec fn candidates<M: PlanModel>(
    tasks: Seq<TaskEntry<M>>,
    insertables: Seq<u64>,
    sharings: Seq<Sharing>,
    k: nat,
) -> Seq<(SubtaskRef, Ustr)>
    decreases k,
{
    if k == 0 {
        Seq::empty()
    } else {
        let before = candidates(tasks, insertables, sharings, (k - 1) as nat);
        let r = SubtaskRef::Fn(insertables[k - 1]);
        match (entry_of(tasks, r), sharing_of(sharings, r, sharings.len())) {
            (None, _) => before,
            (Some(_), Some(s)) => before.push((sharings[s].wrapper, sharings[s].name)),
            (Some(i), None) => before.push((r, tasks[i as int].name)),
        }
    }
}

/// Members with `gap` before, between and behind them.
pub open spec fn spliced(members: Seq<MemberProto>, gap: MemberProto) -> Seq<MemberProto> {
    Seq::new(
        2 * members.len() + 1,
        |i: int|
            if i % 2 == 0 {
                gap
            } else {
                members[i / 2]
            },
    )
}

/// A branch's members after insertion: gaps are spliced into totally-ordered,
/// non-empty bodies alone.
pub open spec fn gapped<M: PlanModel>(m: MethodProto<M>, gap: MemberProto) -> Seq<MemberProto> {
    if m.unordered || m.edges@.len() > 0 || m.subtasks@.len() == 0 {
        m.subtasks@
    } else {
        spliced(m.subtasks@, gap)
    }
}

/// Where a pause marker stands after insertion: before the gap in front of the
/// member that it stood before, or behind the last gap where it stood behind all
/// members.
pub open spec fn carried(p: u32, members: nat) -> u32 {
    if p < members {
        (2 * p) as u32
    } else {
        (2 * p + 1) as u32
    }
}

/// A branch's pause markers after insertion.
pub open spec fn gapped_pauses<M: PlanModel>(m: MethodProto<M>) -> Seq<u32> {
    if m.unordered || m.edges@.len() > 0 || m.subtasks@.len() == 0 {
        m.pause_positions@
    } else {
        Seq::new(
            m.pause_positions@.len(),
            |k: int| carried(m.pause_positions@[k], m.subtasks@.len()),
        )
    }
}

/// Whether `b` is branch `a` after insertion.
pub open spec fn gapped_method<M: PlanModel>(
    a: MethodProto<M>,
    b: MethodProto<M>,
    gap: MemberProto,
) -> bool {
    &&& b == (MethodProto { subtasks: b.subtasks, pause_positions: b.pause_positions, ..a })
    &&& b.subtasks@ == gapped(a, gap)
    &&& b.pause_positions@ == gapped_pauses(a)
}

/// Whether `b` is entry `a` after insertion.
pub open spec fn gapped_entry<M: PlanModel>(
    a: TaskEntry<M>,
    b: TaskEntry<M>,
    gap: MemberProto,
) -> bool {
    match (a.id, a.proto, b.proto) {
        (
            SubtaskRef::Fn(_),
            TaskProto::Compound { methods, policy },
            TaskProto::Compound { methods: ms, policy: p },
        ) => {
            &&& b.id == a.id
            &&& b.name == a.name
            &&& p == policy
            &&& ms@.len() == methods@.len()
            &&& forall|i: int|
                0 <= i < ms@.len() ==> gapped_method(methods@[i], #[trigger] ms@[i], gap)
        },
        _ => b == a,
    }
}

/// Whether a branch inserts a candidate and comes back to the gap.
pub open spec fn is_insertion<M: PlanModel>(
    m: MethodProto<M>,
    candidate: (SubtaskRef, Ustr),
    gap: MemberProto,
) -> bool {
    &&& bare(m)
    &&& is_named(m, "use:"@ + text_of(candidate.1))
    &&& m.preconditions@.len() == 0
    &&& m.subtasks@ == seq![
        MemberProto { task: candidate.0, name: candidate.1, chained: true },
        gap,
    ]
}

/// Whether an entry is the task that stands in every gap: its first branch stops,
/// the others insert a candidate each.
pub open spec fn is_gap_task<M: PlanModel>(
    entry: TaskEntry<M>,
    offered: Seq<(SubtaskRef, Ustr)>,
    gap: MemberProto,
) -> bool {
    &&& entry.id == gap.task
    &&& entry.name == gap.name
    &&& text_of(entry.name) == "gtn/insert"@
    &&& entry.proto matches TaskProto::Compound { methods, policy } && {
        &&& policy is FirstMatch
        &&& methods@.len() == offered.len() + 1
        &&& bare(methods@[0])
        &&& is_named(methods@[0], "stop"@)
        &&& methods@[0].preconditions@.len() == 0
        &&& methods@[0].subtasks@.len() == 0
        &&& forall|i: int|
            0 <= i < offered.len() ==> is_insertion(#[trigger] methods@[i + 1], offered[i], gap)
    }
}

/// Whether recording `b` is recording `a` with task insertion compiled in.
pub open spec fn inserted<M: PlanModel>(
    a: Recorder<M>,
    b: Recorder<M>,
    sharings: Seq<Sharing>,
) -> bool {
    let n = a.tasks@.len();
    let gap = MemberProto {
        task: SubtaskRef::Synthetic(a.next_synthetic),
        name: b.tasks@[n as int].name,
        chained: true,
    };
    &&& b.tasks@.len() == n + 1
    &&& forall|i: int| 0 <= i < n ==> gapped_entry(a.tasks@[i], #[trigger] b.tasks@[i], gap)
    &&& is_gap_task(
        b.tasks@[n as int],
        candidates(a.tasks@, a.insertables@, sharings, a.insertables@.len()),
        gap,
    )
    &&& b.next_synthetic == a.next_synthetic + 1
    &&& b == (Recorder { tasks: b.tasks, next_synthetic: b.next_synthetic, ..a })
}

/// Splices gaps into the branches of a task.
fn splice_methods<M: PlanModel>(methods: &mut Vec<MethodProto<M>>, gap: MemberProto)
    ensures
        final(methods)@.len() == old(methods)@.len(),
        forall|i: int|
            0 <= i < final(methods)@.len() ==> gapped_method(
                old(methods)@[i],
                #[trigger] final(methods)@[i],
                gap,
            ),
{
    let ghost before = methods@;
    let n: usize = methods.len();
    for i in 0..n
        invariant
            n == before.len(),
            methods@.len() == before.len(),
            forall|k: int| 0 <= k < i ==> gapped_method(before[k], #[trigger] methods@[k], gap),
            forall|k: int| i <= k < before.len() ==> (#[trigger] methods@[k]) == before[k],
    {
        assert(methods@[i as int] == before[i as int]);
        let whole = !methods[i].unordered && methods[i].edges.len() == 0
            && methods[i].subtasks.len() > 0;
        if whole {
            let members = splice_members(&methods[i].subtasks, gap);
            let pauses = carry_pauses(&methods[i].pause_positions, methods[i].subtasks.len());
            methods[i].subtasks = members;
            methods[i].pause_positions = pauses;
        }
    }
}

fn carry_pauses(pauses: &Vec<u32>, members: usize) -> (all: Vec<u32>)
    ensures
        all@ == Seq::new(pauses@.len(), |k: int| carried(pauses@[k], members as nat)),
{
    let mut all: Vec<u32> = Vec::new();
    for i in 0..pauses.len()
        invariant
            all@ == Seq::new(i as nat, |k: int| carried(pauses@[k], members as nat)),
    {
        let p: u32 = pauses[i];
        let wide: u64 = if (p as usize) < members {
            2 * (p as u64)
        } else {
            2 * (p as u64) + 1
        };
        all.push(wide as u32);
        assert(all@ =~= Seq::new((i + 1) as nat, |k: int| carried(pauses@[k], members as nat)));
    }
    all
}

fn splice_members(members: &Vec<MemberProto>, gap: MemberProto) -> (all: Vec<MemberProto>)
    ensures
        all@ == spliced(members@, gap),
{
    let mut all: Vec<MemberProto> = Vec::new();
    all.push(gap);
    assert(all@ =~= spliced(members@.take(0), gap));
    for i in 0..members.len()
        invariant
            all@ == spliced(members@.take(i as int), gap),
    {
        let ghost before = all@;
        all.push(members[i]);
        all.push(gap);
        assert forall|k: int| 0 <= k < all@.len() implies all@[k] == spliced(
            members@.take(i + 1),
            gap,
        )[k] by {
            if k < before.len() {
                assert(all@[k] == before[k]);
            }
        }
        assert(all@ =~= spliced(members@.take(i + 1), gap));
    }
    assert(members@.take(members@.len() as int) =~= members@);
    all
}

/// Compiles task insertion into the recording.
pub fn apply_insertion<M: PlanModel>(
    rec: &mut Recorder<M>,
    sharings: &Vec<Sharing>,
) -> (result: HtnResult<()>)
    requires
        old(rec).wf(),
        old(rec).next_synthetic < u32::MAX,
        forall|i: int|
            0 <= i < sharings@.len() ==> recorded(
                old(rec).tasks@,
                (#[trigger] sharings@[i]).wrapper,
            ),
    ensures
        if !old(rec).insertion || old(rec).insertables@.len() == 0 {
            result is Ok && *final(rec) == *old(rec)
        } else {
            match result {
                Ok(_) => {
                    &&& first_insertable_error(
                        old(rec).tasks@,
                        old(rec).insertables@,
                        0,
                    ) is None
                    &&& inserted(*old(rec), *final(rec), sharings@)
                    &&& final(rec).wf()
                },
                Err(e) => first_insertable_error(
                    old(rec).tasks@,
                    old(rec).insertables@,
                    0,
                ) matches Some(text) && e.is_builder(text),
            }
        },
{
    if !rec.insertion || rec.insertables.len() == 0 {
        return Ok(());
    }
    let ghost a = *rec;
    let ghost n = a.tasks@.len();
    let insert_ref = SubtaskRef::Synthetic(rec.next_synthetic);
    let insert_name = intern("gtn/insert");
    let gap = MemberProto { task: insert_ref, name: insert_name, chained: true };
    let mut methods: Vec<MethodProto<M>> = Vec::new();
    methods.push(bare_method("stop", Vec::new(), Vec::new()));
    for k in 0..rec.insertables.len()
        invariant
            a == *old(rec),
            *rec == a,
            a.insertion,
            a.insertables@.len() > 0,
            methods@.len() == candidates(
                a.tasks@,
                a.insertables@,
                sharings@,
                k as nat,
            ).len() + 1,
            bare(methods@[0]),
            is_named(methods@[0], "stop"@),
            methods@[0].preconditions@.len() == 0,
            methods@[0].subtasks@.len() == 0,
            forall|i: int|
                0 <= i < methods@.len() - 1 ==> is_insertion(
                    #[trigger] methods@[i + 1],
                    candidates(a.tasks@, a.insertables@, sharings@, k as nat)[i],
                    gap,
                ),
            first_insertable_error(a.tasks@, a.insertables@, 0) == first_insertable_error(
                a.tasks@,
                a.insertables@,
                k as nat,
            ),
    {
        let r = SubtaskRef::Fn(rec.insertables[k]);
        let ghost before = candidates(a.tasks@, a.insertables@, sharings@, k as nat);
        match find_entry(&rec.tasks, r) {
            None => {},
            Some(idx) => {
                let primitive = match &rec.tasks[idx].proto {
                    TaskProto::Primitive { .. } => true,
                    TaskProto::Compound { .. } => false,
                };
                if !primitive {
                    let text = join3(
                        "insertable: `",
                        name_text(rec.tasks[idx].name),
                        "` is not a primitive task",
                    );
                    return Err(HtnError::builder(text));
                }
                let (candidate, name) = match find_sharing(sharings, r) {
                    Some(s) => (sharings[s].wrapper, sharings[s].name),
                    None => (r, rec.tasks[idx].name),
                };
                let mut members: Vec<MemberProto> = Vec::new();
                members.push(MemberProto { task: candidate, name, chained: true });
                members.push(gap);
                assert(members@ =~= seq![
                    MemberProto { task: candidate, name, chained: true },
                    gap,
                ]);
                let text = join2("use:", name_text(name));
                let ghost methods_before = methods@;
                methods.push(bare_method(text.as_str(), Vec::new(), members));
                proof {
                    let all = candidates(a.tasks@, a.insertables@, sharings@, (k + 1) as nat);
                    assert(all == before.push((candidate, name)));
                    assert forall|i: int| 0 <= i < methods@.len() - 1 implies is_insertion(
                        #[trigger] methods@[i + 1],
                        all[i],
                        gap,
                    ) by {
                        if i < before.len() {
                            assert(methods@[i + 1] == methods_before[i + 1]);
                        }
                    }
                }
            },
        }
    }
    let m: usize = rec.tasks.len();
    for i in 0..m
        invariant
            m == n,
            n == a.tasks@.len(),
            rec.tasks@.len() == m,
            forall|t: int| i <= t < m ==> (#[trigger] rec.tasks@[t]) == a.tasks@[t],
            forall|t: int|
                0 <= t < i ==> gapped_entry(a.tasks@[t], #[trigger] rec.tasks@[t], gap),
            *rec == (Recorder { tasks: rec.tasks, ..a }),
    {
        let ghost before = rec.tasks@;
        assert(rec.tasks@[i as int] == a.tasks@[i as int]);
        let authored_task = match rec.tasks[i].id {
            SubtaskRef::Fn(_) => true,
            SubtaskRef::Synthetic(_) => false,
        };
        if authored_task {
            match &mut rec.tasks[i].proto {
                TaskProto::Compound { methods, policy } => {
                    splice_methods(methods, gap);
                },
                _ => {},
            }
        }
        assert forall|t: int| 0 <= t < i + 1 implies gapped_entry(
            a.tasks@[t],
            #[trigger] rec.tasks@[t],
            gap,
        ) by {
            if t < i {
                assert(rec.tasks@[t] == before[t]);
            }
        }
    }
    let ghost mid = rec.tasks@;
    rec.tasks.push(
        TaskEntry {
            id: insert_ref,
            name: insert_name,
            proto: TaskProto::Compound { methods, policy: SelectionPolicy::FirstMatch },
        },
    );
    rec.next_synthetic = rec.next_synthetic + 1;
    proof {
        assert forall|i: int| 0 <= i < n implies gapped_entry(
            a.tasks@[i],
            #[trigger] rec.tasks@[i],
            gap,
        ) by {
            assert(rec.tasks@[i] == mid[i]);
        }
        assert(inserted(a, *rec, sharings@));
        assert(a.tasks.len() <= usize::MAX);
        lemma_inserted_wf(a, *rec, sharings@, gap);
    }
    Ok(())
}

proof fn lemma_candidates_recorded<M: PlanModel>(
    tasks: Seq<TaskEntry<M>>,
    insertables: Seq<u64>,
    sharings: Seq<Sharing>,
    k: nat,
)
    requires
        tasks.len() <= usize::MAX,
        k <= insertables.len(),
        forall|i: int|
            0 <= i < sharings.len() ==> recorded(tasks, (#[trigger] sharings[i]).wrapper),
    ensures
        forall|i: int|
            0 <= i < candidates(tasks, insertables, sharings, k).len() ==> recorded(
                tasks,
                (#[trigger] candidates(tasks, insertables, sharings, k)[i]).0,
            ),
    decreases k,
{
    if k > 0 {
        lemma_candidates_recorded(tasks, insertables, sharings, (k - 1) as nat);
        let before = candidates(tasks, insertables, sharings, (k - 1) as nat);
        let all = candidates(tasks, insertables, sharings, k);
        let r = SubtaskRef::Fn(insertables[k - 1]);
        lemma_entry_found(tasks, r, 0);
        lemma_sharing_found(sharings, r, sharings.len());
        assert forall|i: int| 0 <= i < all.len() implies recorded(tasks, (#[trigger] all[i]).0) by {
            if i < before.len() {
                assert(all[i] == before[i]);
            } else {
                let idx = entry_of(tasks, r)->Some_0 as int;
                assert(tasks[idx].id == r);
            }
        }
    }
}

/// Insertion keeps a recording consistent.
proof fn lemma_inserted_wf<M: PlanModel>(
    a: Recorder<M>,
    b: Recorder<M>,
    sharings: Seq<Sharing>,
    gap: MemberProto,
)
    requires
        a.wf(),
        a.tasks@.len() <= usize::MAX,
        inserted(a, b, sharings),
        gap.task == SubtaskRef::Synthetic(a.next_synthetic),
        gap.name == b.tasks@[a.tasks@.len() as int].name,
        gap.chained,
        a.next_synthetic < u32::MAX,
        forall|i: int|
            0 <= i < sharings.len() ==> recorded(a.tasks@, (#[trigger] sharings[i]).wrapper),
    ensures
        b.wf(),
{
    let n = a.tasks@.len();
    let wide = b.registry.slots@.len();
    assert forall|i: int| 0 <= i < n implies (#[trigger] b.tasks@[i]).id == a.tasks@[i].id by {
        assert(gapped_entry(a.tasks@[i], b.tasks@[i], gap));
    }
    assert forall|i: int, j: int| 0 <= i < j < b.tasks@.len() implies (#[trigger] b.tasks@[i]).id
        != (#[trigger] b.tasks@[j]).id by {
        assert(b.tasks@[i].id == a.tasks@[i].id);
        if j < n {
            assert(b.tasks@[j].id == a.tasks@[j].id);
        } else {
            assert(authored(a.tasks@[i].proto));
        }
    }
    assert forall|r: SubtaskRef| #[trigger] recorded(a.tasks@, r) implies recorded(b.tasks@, r) by {
        let i = choose|i: int| 0 <= i < a.tasks@.len() && (#[trigger] a.tasks@[i]).id == r;
        assert(b.tasks@[i].id == r);
    }
    assert(recorded(b.tasks@, gap.task)) by {
        assert(b.tasks@[n as int].id == gap.task);
    }
    let offered = candidates(a.tasks@, a.insertables@, sharings, a.insertables@.len());
    lemma_candidates_recorded(a.tasks@, a.insertables@, sharings, a.insertables@.len());
    assert forall|i: int| 0 <= i < b.tasks@.len() implies authored((#[trigger] b.tasks@[i]).proto)
        && (b.tasks@[i].id matches SubtaskRef::Synthetic(s) ==> s < b.next_synthetic)
        && proto_fits(b.tasks@[i].proto, wide) && members_known(
        b.tasks@,
        b.queue@,
        b.tasks@[i].proto,
    ) by {
        if i < n {
            assert(gapped_entry(a.tasks@[i], b.tasks@[i], gap));
            assert(authored(a.tasks@[i].proto));
            assert(members_known(a.tasks@, a.queue@, a.tasks@[i].proto));
            if let TaskProto::Compound { methods: ms, policy: p } = b.tasks@[i].proto {
                let methods = a.tasks@[i].proto->methods;
                assert forall|k: int| 0 <= k < ms@.len() implies method_fits(
                    #[trigger] ms@[k],
                    wide,
                ) by {
                    assert(method_fits(methods@[k], wide));
                    if a.tasks@[i].id is Fn {
                        assert(gapped_method(methods@[k], ms@[k], gap));
                    }
                }
                assert forall|m: int, k: int|
                    0 <= m < ms@.len() && 0 <= k < ms@[m].subtasks@.len() implies {
                    let r = (#[trigger] ms@[m].subtasks@[k]).task;
                    recorded(b.tasks@, r) || (r matches SubtaskRef::Fn(id) && queued(
                        b.queue@,
                        id,
                    ))
                } by {
                    let members = methods@[m].subtasks@;
                    if a.tasks@[i].id is Fn {
                        assert(gapped_method(methods@[m], ms@[m], gap));
                        if ms@[m].subtasks@ == members {
                            assert(ms@[m].subtasks@[k] == members[k]);
                        } else if k % 2 == 1 {
                            assert(ms@[m].subtasks@[k] == members[k / 2]);
                        }
                    } else {
                        assert(ms@[m].subtasks@[k] == members[k]);
                    }
                }
            }
        } else {
            let methods = b.tasks@[i].proto->methods@;
            assert forall|k: int| 0 <= k < methods.len() implies method_fits(
                #[trigger] methods[k],
                wide,
            ) by {
                if k > 0 {
                    assert(is_insertion(methods[(k - 1) + 1], offered[k - 1], gap));
                }
            }
            assert forall|m: int, k: int|
                0 <= m < methods.len() && 0 <= k < methods[m].subtasks@.len() implies {
                let r = (#[trigger] methods[m].subtasks@[k]).task;
                recorded(b.tasks@, r) || (r matches SubtaskRef::Fn(id) && queued(b.queue@, id))
            } by {
                assert(m > 0);
                assert(is_insertion(methods[(m - 1) + 1], offered[m - 1], gap));
                assert(recorded(a.tasks@, offered[m - 1].0));
            }
        }
    }
}

/// A member is rerouted exactly where its task is shared: to the wrapper of the
/// last request for it. Any other member stays as it is.
pub proof fn shared_members_are_rerouted(member: MemberProto, sharings: Seq<Sharing>, k: nat)
    requires
        k <= sharings.len(),
    ensures
        match sharing_of(sharings, member.task, k) {
            Some(i) => 0 <= i < k && SubtaskRef::Fn(sharings[i].task) == member.task && forall|j: int|
                i < j < k ==> SubtaskRef::Fn((#[trigger] sharings[j]).task) != member.task,
            None => forall|j: int|
                0 <= j < k ==> SubtaskRef::Fn((#[trigger] sharings[j]).task) != member.task,
        },
        (forall|j: int|
            0 <= j < sharings.len() ==> SubtaskRef::Fn((#[trigger] sharings[j]).task)
                != member.task) ==> rerouted(member, sharings) == member,
        rerouted(member, sharings).chained == member.chained,
        (exists|j: int|
            0 <= j < sharings.len() && SubtaskRef::Fn((#[trigger] sharings[j]).task)
                == member.task) ==> exists|j: int|
            0 <= j < sharings.len() && SubtaskRef::Fn((#[trigger] sharings[j]).task) == member.task
                && rerouted(member, sharings).task == sharings[j].wrapper,
    decreases k,
{
    if k > 0 {
        shared_members_are_rerouted(member, sharings, (k - 1) as nat);
    }
    lemma_last_sharing(sharings, member.task, sharings.len());
}

proof fn lemma_last_sharing(sharings: Seq<Sharing>, r: SubtaskRef, k: nat)
    requires
        k <= sharings.len(),
    ensures
        match sharing_of(sharings, r, k) {
            Some(i) => 0 <= i < k && SubtaskRef::Fn(sharings[i].task) == r,
            None => forall|j: int| 0 <= j < k ==> SubtaskRef::Fn((#[trigger] sharings[j]).task) != r,
        },
    decreases k,
{
    if k > 0 {
        lemma_last_sharing(sharings, r, (k - 1) as nat);
    }
}

/// The wrapper of a shared task does what is to be done: where the task is not
/// marked as done and its own preconditions hold, the branch that runs it applies
/// and the empty one does not; where it is marked, it is the other way round; and
/// where one of its preconditions fails, the empty branch applies.
pub proof fn wrappers_run_what_is_not_done<M: PlanModel>(
    entry: TaskEntry<M>,
    orig: TaskEntry<M>,
    wrapper: SubtaskRef,
    id: nat,
    slot: usize,
    s: ModelState<M>,
)
    requires
        is_wrapper(entry, orig, wrapper, id, slot),
        orig.proto is Primitive,
        id <= usize::MAX,
    ensures
        ({
            let methods = entry.proto->methods@;
            let done = all_hold(methods[0].preconditions@, s);
            let runs = all_hold(methods[1].preconditions@, s);
            let ready = all_hold(orig.proto->Primitive_preconditions@, s);
            let marked = is_marked(s[slot as int], id as int);
            &&& runs == !marked
            &&& done == (marked || !ready)
            &&& methods[0].subtasks@.len() == 0
            &&& methods[1].subtasks@.len() == 1
            &&& methods[1].subtasks@[0].task == orig.id
        }),
{
    let methods = entry.proto->methods@;
    let ps = orig.proto->Primitive_preconditions@;
    let check = methods[0].preconditions@[0];
    let gates = check.check->gates@;
    assert forall|g: int| 0 <= g < ps.len() implies gates[g].holds(s) == (#[trigger] ps[g]).holds(s) by {
        assert(ps[g].check == CompiledCheck::<M>::Body(gates[g].check));
    }
    if check.holds(s) && !is_marked(s[slot as int], id as int) {
        let g = choose|g: int| 0 <= g < gates.len() && !(#[trigger] gates[g]).holds(s);
        assert(!ps[g].holds(s));
    }
    if !all_hold(ps, s) {
        let g = choose|g: int| 0 <= g < ps.len() && !(#[trigger] ps[g]).holds(s);
        assert(!gates[g].holds(s));
        assert(check.holds(s));
    }
    assert(all_hold(methods[0].preconditions@, s) == check.holds(s));
    assert(all_hold(methods[1].preconditions@, s) == methods[1].preconditions@[0].holds(s));
}

/// The marks of a shared task are its requests, each once, in order.
pub proof fn every_request_is_marked(shares: Seq<u64>, r: SubtaskRef, k: nat)
    requires
        k <= shares.len(),
    ensures
        forall|i: int, j: int|
            0 <= i < j < ordinals(shares, r, k).len() ==> (#[trigger] ordinals(shares, r, k)[i]) < (
            #[trigger] ordinals(shares, r, k)[j]),
        forall|j: nat|
            #[trigger] ordinals(shares, r, k).contains(j) <==> j < k && SubtaskRef::Fn(
                shares[j as int],
            ) == r,
    decreases k,
{
    if k > 0 {
        every_request_is_marked(shares, r, (k - 1) as nat);
        let before = ordinals(shares, r, (k - 1) as nat);
        let now = ordinals(shares, r, k);
        assert forall|i: int| 0 <= i < before.len() implies (#[trigger] before[i]) < k - 1 by {
            assert(before.contains(before[i]));
        }
        assert forall|j: nat| #[trigger] now.contains(j) <==> j < k && SubtaskRef::Fn(
            shares[j as int],
        ) == r by {
            if before.contains(j) {
                let i = before.index_of(j);
                assert(now[i] == j);
            }
            if now.contains(j) {
                let i = now.index_of(j);
                if i < before.len() {
                    assert(before[i] == j);
                    assert(before.contains(j));
                }
            }
            if j == k - 1 && SubtaskRef::Fn(shares[j as int]) == r {
                assert(now[before.len() as int] == j);
            }
        }
    }
}

/// A request to share is refused exactly where the function is not recorded or is
/// no primitive, and a request to insert where it is recorded and is no primitive;
/// requests pass where none is refused.
pub proof fn wrong_requests_are_refused<M: PlanModel>(
    tasks: Seq<TaskEntry<M>>,
    requests: Seq<u64>,
    k: nat,
)
    requires
        tasks.len() <= usize::MAX,
    ensures
        first_share_error(tasks, requests, k) is None <==> forall|j: int|
            k <= j < requests.len() ==> share_error(tasks, #[trigger] requests[j]) is None,
        first_insertable_error(tasks, requests, k) is None <==> forall|j: int|
            k <= j < requests.len() ==> insertable_error(tasks, #[trigger] requests[j]) is None,
        forall|task: u64| #[trigger]
            share_error(tasks, task) is None ==> exists|i: int|
                0 <= i < tasks.len() && (#[trigger] tasks[i]).id == SubtaskRef::Fn(task)
                    && tasks[i].proto is Primitive,
        forall|task: u64, i: int|
            0 <= i < tasks.len() && (#[trigger] tasks[i]).id == SubtaskRef::Fn(task)
                && !(tasks[i].proto is Primitive) && (forall|j: int|
                0 <= j < i ==> (#[trigger] tasks[j]).id != SubtaskRef::Fn(task)) ==> (
            #[trigger] share_error(tasks, task)) is Some && insertable_error(tasks, task) is Some,
    decreases requests.len() - k,
{
    if k < requests.len() {
        wrong_requests_are_refused(tasks, requests, k + 1);
    }
    assert forall|task: u64| #[trigger] share_error(tasks, task) is None implies exists|i: int|
        0 <= i < tasks.len() && (#[trigger] tasks[i]).id == SubtaskRef::Fn(task)
            && tasks[i].proto is Primitive by {
        lemma_entry_found(tasks, SubtaskRef::Fn(task), 0);
        let i = entry_of(tasks, SubtaskRef::Fn(task))->Some_0 as int;
        assert(tasks[i].proto is Primitive);
    }
    assert forall|task: u64, i: int|
        0 <= i < tasks.len() && (#[trigger] tasks[i]).id == SubtaskRef::Fn(task)
            && !(tasks[i].proto is Primitive) && (forall|j: int|
            0 <= j < i ==> (#[trigger] tasks[j]).id != SubtaskRef::Fn(task)) implies (
    #[trigger] share_error(tasks, task)) is Some && insertable_error(tasks, task) is Some by {
        lemma_entry_found(tasks, SubtaskRef::Fn(task), 0);
        let at = entry_of(tasks, SubtaskRef::Fn(task))->Some_0 as int;
        if at > i {
            assert(tasks[i].id != SubtaskRef::Fn(task));
        }
    }
}

/// What is offered for insertion are the recorded functions that were asked for, in
/// order: each itself, or its wrapper where it is shared. A function that is not
/// recorded is left out.
pub proof fn recorded_insertables_are_offered<M: PlanModel>(
    tasks: Seq<TaskEntry<M>>,
    insertables: Seq<u64>,
    sharings: Seq<Sharing>,
    i: int,
    k: nat,
)
    requires
        0 <= i < k <= insertables.len(),
        tasks.len() <= usize::MAX,
    ensures
        ({
            let r = SubtaskRef::Fn(insertables[i]);
            let before = candidates(tasks, insertables, sharings, i as nat);
            let all = candidates(tasks, insertables, sharings, k);
            let at = before.len() as int;
            &&& candidates(tasks, insertables, sharings, 0).len() == 0
            &&& before.is_prefix_of(all)
            &&& recorded(tasks, r) ==> at < all.len()
            &&& recorded(tasks, r) && (forall|j: int|
                0 <= j < sharings.len() ==> SubtaskRef::Fn((#[trigger] sharings[j]).task) != r)
                ==> all[at].0 == r
            &&& recorded(tasks, r) && (exists|j: int|
                0 <= j < sharings.len() && SubtaskRef::Fn((#[trigger] sharings[j]).task) == r)
                ==> exists|j: int|
                0 <= j < sharings.len() && SubtaskRef::Fn((#[trigger] sharings[j]).task) == r
                    && all[at] == (sharings[j].wrapper, sharings[j].name)
            &&& !recorded(tasks, r) ==> candidates(tasks, insertables, sharings, (i + 1) as nat)
                == before
        }),
    decreases k,
{
    if i < k - 1 {
        recorded_insertables_are_offered(tasks, insertables, sharings, i, (k - 1) as nat);
        let r = SubtaskRef::Fn(insertables[i]);
        if recorded(tasks, r) && (exists|j: int|
            0 <= j < sharings.len() && SubtaskRef::Fn((#[trigger] sharings[j]).task) == r) {
            let some = candidates(tasks, insertables, sharings, (k - 1) as nat);
            let at = candidates(tasks, insertables, sharings, i as nat).len() as int;
            let j = choose|j: int|
                0 <= j < sharings.len() && SubtaskRef::Fn((#[trigger] sharings[j]).task) == r
                    && some[at] == (sharings[j].wrapper, sharings[j].name);
            assert(candidates(tasks, insertables, sharings, k)[at] == some[at]);
            assert(SubtaskRef::Fn(sharings[j].task) == r);
        }
    } else {
        let r = SubtaskRef::Fn(insertables[i]);
        lemma_entry_found(tasks, r, 0);
        lemma_last_sharing(sharings, r, sharings.len());
        if recorded(tasks, r) {
            let x = choose|x: int| 0 <= x < tasks.len() && (#[trigger] tasks[x]).id == r;
            assert(entry_of(tasks, r) is Some);
        }
        if sharing_of(sharings, r, sharings.len()) is Some {
            let j = sharing_of(sharings, r, sharings.len())->Some_0;
            assert(SubtaskRef::Fn(sharings[j].task) == r);
        }
    }
}

/// Insertion puts a gap before, between and behind the members of a branch in
/// declared order that has any, and keeps the members in their order. A pause
/// stays between the members that it stood between.
pub proof fn gaps_stand_between_all_members<M: PlanModel>(
    a: MethodProto<M>,
    b: MethodProto<M>,
    gap: MemberProto,
    i: int,
)
    requires
        gapped_method(a, b, gap),
        !a.unordered,
        a.edges@.len() == 0,
        a.subtasks@.len() > 0,
    ensures
        b.subtasks@.len() == 2 * a.subtasks@.len() + 1,
        0 <= i <= a.subtasks@.len() ==> b.subtasks@[2 * i] == gap,
        0 <= i < a.subtasks@.len() ==> b.subtasks@[2 * i + 1] == a.subtasks@[i],
        b.pause_positions@.len() == a.pause_positions@.len(),
        0 <= i < a.pause_positions@.len() && 2 * a.pause_positions@[i] + 1 <= u32::MAX ==> {
            let p = a.pause_positions@[i];
            let q = b.pause_positions@[i];
            &&& p < a.subtasks@.len() ==> q == 2 * p
            &&& p == a.subtasks@.len() ==> q == b.subtasks@.len()
        },
        b.preconditions == a.preconditions,
        b.name == a.name,
{
    assert((2 * i + 1) / 2 == i);
}

} // verus!
