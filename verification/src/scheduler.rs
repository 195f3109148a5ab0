//! The wavefront scheduler: from the declared orderings and read/write sets
//! of the systems to a sequence of groups of systems that may run in parallel.

use vstd::prelude::*;
use crate::wavefront::{arc, has_schedule, is_rest, is_schedule, layered, lists_layers, matrix,
    square, stuck, wavefronts_of_graph, lemma_schedule_excludes_stuck, lemma_schedule_unique,
    lemma_wavefront_independent};

verus! {

/// Identity of the group of systems that run first in a tick.
pub const INITIALIZATION_GROUP: u64 = 0xFFFF_FFFF_FFFF_FFF0;

/// Identity of the group of systems that run after the initialization group.
pub const SIMULATION_GROUP: u64 = 0xFFFF_FFFF_FFFF_FFF1;

/// Identity of the group of systems that run after the simulation group.
pub const CLEANUP_GROUP: u64 = 0xFFFF_FFFF_FFFF_FFF2;

/// Identity of the group of systems that run last in a tick.
pub const DESTROY_GROUP: u64 = 0xFFFF_FFFF_FFFF_FFF3;

/// A group of systems: systems name it as their parent, and the groups
/// are ordered among themselves.
pub trait PipelineGroup: Sized {
    /// The identity of the group.
    spec fn id() -> u64;

    /// The groups that this group runs after, directly.
    spec fn runs_after() -> Seq<u64>;

    /// The groups that this group runs before, directly.
    spec fn runs_before() -> Seq<u64>;

    /// The group that this group belongs to, if any.
    spec fn belongs_to() -> Option<u64>;

    /// The name of the group.
    spec fn label() -> Seq<char>;

    /// The name of the group.
    fn name(&self) -> (name: &'static str)
        ensures
            name@ == Self::label(),
    ;

    /// The identity of the group.
    fn type_id(&self) -> (id: u64)
        ensures
            id == Self::id(),
    ;

    /// The groups that this group runs before, directly.
    fn before(&self) -> (groups: Vec<u64>)
        ensures
            groups@ == Self::runs_before(),
    ;

    /// The groups that this group runs after, directly.
    fn after(&self) -> (groups: Vec<u64>)
        ensures
            groups@ == Self::runs_after(),
    ;

    /// The group that this group belongs to, if any.
    fn parent(&self) -> (group: Option<u64>)
        ensures
            group == Self::belongs_to(),
    ;
}

/// The group of systems that run first in a tick.
pub struct InitializationGroup;

/// The group of systems that run after the initialization group.
pub struct SimulationGroup;

/// The group of systems that run after the simulation group.
pub struct CleanupGroup;

/// The group of systems that run last in a tick.
pub struct DestroyGroup;

impl InitializationGroup {
    /// The group; it holds no state.
    pub fn create() -> (group: Self)
        ensures
            group == InitializationGroup,
    {
        InitializationGroup
    }
}

impl SimulationGroup {
    /// The group; it holds no state.
    pub fn create() -> (group: Self)
        ensures
            group == SimulationGroup,
    {
        SimulationGroup
    }
}

impl CleanupGroup {
    /// The group; it holds no state.
    pub fn create() -> (group: Self)
        ensures
            group == CleanupGroup,
    {
        CleanupGroup
    }
}

impl DestroyGroup {
    /// The group; it holds no state.
    pub fn create() -> (group: Self)
        ensures
            group == DestroyGroup,
    {
        DestroyGroup
    }
}

impl PipelineGroup for InitializationGroup {
    open spec fn id() -> u64 {
        INITIALIZATION_GROUP
    }

    open spec fn runs_after() -> Seq<u64> {
        Seq::empty()
    }

    open spec fn runs_before() -> Seq<u64> {
        Seq::empty()
    }

    open spec fn belongs_to() -> Option<u64> {
        None
    }

    open spec fn label() -> Seq<char> {
        "InitializationGroup"@
    }

    fn name(&self) -> (name: &'static str) {
        "InitializationGroup"
    }

    fn type_id(&self) -> (id: u64) {
        INITIALIZATION_GROUP
    }

    fn before(&self) -> (groups: Vec<u64>) {
        Vec::new()
    }

    fn after(&self) -> (groups: Vec<u64>) {
        Vec::new()
    }

    fn parent(&self) -> (group: Option<u64>) {
        None
    }
}

impl PipelineGroup for SimulationGroup {
    open spec fn id() -> u64 {
        SIMULATION_GROUP
    }

    open spec fn runs_after() -> Seq<u64> {
        seq![INITIALIZATION_GROUP]
    }

    open spec fn runs_before() -> Seq<u64> {
        Seq::empty()
    }

    open spec fn belongs_to() -> Option<u64> {
        None
    }

    open spec fn label() -> Seq<char> {
        "SimulationGroup"@
    }

    fn name(&self) -> (name: &'static str) {
        "SimulationGroup"
    }

    fn type_id(&self) -> (id: u64) {
        SIMULATION_GROUP
    }

    fn before(&self) -> (groups: Vec<u64>) {
        Vec::new()
    }

    fn after(&self) -> (groups: Vec<u64>) {
        let mut groups: Vec<u64> = Vec::new();
        groups.push(INITIALIZATION_GROUP);
        proof {
            assert(groups@ =~= seq![INITIALIZATION_GROUP]);
        }
        groups
    }

    fn parent(&self) -> (group: Option<u64>) {
        None
    }
}

impl PipelineGroup for CleanupGroup {
    open spec fn id() -> u64 {
        CLEANUP_GROUP
    }

    open spec fn runs_after() -> Seq<u64> {
        seq![SIMULATION_GROUP]
    }

    open spec fn runs_before() -> Seq<u64> {
        Seq::empty()
    }

    open spec fn belongs_to() -> Option<u64> {
        None
    }

    open spec fn label() -> Seq<char> {
        "CleanupGroup"@
    }

    fn name(&self) -> (name: &'static str) {
        "CleanupGroup"
    }

    fn type_id(&self) -> (id: u64) {
        CLEANUP_GROUP
    }

    fn before(&self) -> (groups: Vec<u64>) {
        Vec::new()
    }

    fn after(&self) -> (groups: Vec<u64>) {
        let mut groups: Vec<u64> = Vec::new();
        groups.push(SIMULATION_GROUP);
        proof {
            assert(groups@ =~= seq![SIMULATION_GROUP]);
        }
        groups
    }

    fn parent(&self) -> (group: Option<u64>) {
        None
    }
}

impl PipelineGroup for DestroyGroup {
    open spec fn id() -> u64 {
        DESTROY_GROUP
    }

    open spec fn runs_after() -> Seq<u64> {
        seq![CLEANUP_GROUP]
    }

    open spec fn runs_before() -> Seq<u64> {
        Seq::empty()
    }

    open spec fn belongs_to() -> Option<u64> {
        None
    }

    open spec fn label() -> Seq<char> {
        "DestroyGroup"@
    }

    fn name(&self) -> (name: &'static str) {
        "DestroyGroup"
    }

    fn type_id(&self) -> (id: u64) {
        DESTROY_GROUP
    }

    fn before(&self) -> (groups: Vec<u64>) {
        Vec::new()
    }

    fn after(&self) -> (groups: Vec<u64>) {
        let mut groups: Vec<u64> = Vec::new();
        groups.push(CLEANUP_GROUP);
        proof {
            assert(groups@ =~= seq![CLEANUP_GROUP]);
        }
        groups
    }

    fn parent(&self) -> (group: Option<u64>) {
        None
    }
}

/// **The rank of a default group counts the groups that it runs after.**
/// A default group runs directly after the group whose rank is one lower,
/// so the groups of lower rank are those that it runs after, directly or
/// through other groups. No default group declares a group that it runs
/// before, and none belongs to another group.
pub proof fn lemma_group_ranks()
    ensures
        group_rank(InitializationGroup::id()) == Some(0nat),
        InitializationGroup::runs_after().len() == 0,
        group_rank(SimulationGroup::id()) == Some(1nat),
        SimulationGroup::runs_after() == seq![InitializationGroup::id()],
        group_rank(CleanupGroup::id()) == Some(2nat),
        CleanupGroup::runs_after() == seq![SimulationGroup::id()],
        group_rank(DestroyGroup::id()) == Some(3nat),
        DestroyGroup::runs_after() == seq![CleanupGroup::id()],
        InitializationGroup::runs_before().len() == 0 && InitializationGroup::belongs_to().is_none(),
        SimulationGroup::runs_before().len() == 0 && SimulationGroup::belongs_to().is_none(),
        CleanupGroup::runs_before().len() == 0 && CleanupGroup::belongs_to().is_none(),
        DestroyGroup::runs_before().len() == 0 && DestroyGroup::belongs_to().is_none(),
{
}

/// What the scheduler needs to know of a system.
pub struct SystemDescriptor {
    /// The identity of the system's type.
    pub type_id: u64,
    /// The system or group that the system belongs to, if any.
    pub parent: Option<u64>,
    /// Systems that must have run before this one.
    pub after: Vec<u64>,
    /// Systems that must run after this one.
    pub before: Vec<u64>,
    /// Component types that the system reads.
    pub reads: Vec<u64>,
    /// Component types that the system writes.
    pub writes: Vec<u64>,
}

/// Why no schedule could be built.
#[derive(Debug)]
pub enum SchedulerError {
    /// The systems `remaining` cannot be ordered: each of them waits for another of them.
    CircularDependency { remaining: Vec<usize> },
    /// System `system` declares, itself or through a parent, that it runs
    /// before or after `dependency`, and the schedule does not put the two
    /// in that order.
    NonDeterministicOrdering { system: usize, dependency: usize },
}

/// The place of a default group in the order of the groups: a system of a
/// group with a lower rank runs before every system of a group with a higher one.
pub open spec fn group_rank(id: u64) -> Option<nat> {
    if id == INITIALIZATION_GROUP {
        Some(0nat)
    } else if id == SIMULATION_GROUP {
        Some(1nat)
    } else if id == CLEANUP_GROUP {
        Some(2nat)
    } else if id == DESTROY_GROUP {
        Some(3nat)
    } else {
        None
    }
}

/// The rank of the default group that a system belongs to directly, if it does.
pub open spec fn parent_rank(system: SystemDescriptor) -> Option<nat> {
    match system.parent {
        Some(id) => group_rank(id),
        None => None,
    }
}

/// The index of the system with type `id`: the last one, where several have it.
pub open spec fn system_index(systems: Seq<SystemDescriptor>, id: u64) -> Option<int>
    decreases systems.len(),
{
    if systems.len() == 0 {
        None
    } else if systems.last().type_id == id {
        Some(systems.len() - 1)
    } else {
        system_index(systems.drop_last(), id)
    }
}

/// The `steps`-th ancestor of system `i` along the parent links, as far as
/// the parents are systems of the list. The system is its own ancestor of
/// step 0.
pub open spec fn ancestor(systems: Seq<SystemDescriptor>, i: int, steps: nat) -> Option<int>
    decreases steps,
{
    if steps == 0 {
        Some(i)
    } else {
        match ancestor(systems, i, (steps - 1) as nat) {
            Some(a) => if 0 <= a < systems.len() {
                match systems[a].parent {
                    Some(id) => system_index(systems, id),
                    None => None,
                }
            } else {
                None
            },
            None => None,
        }
    }
}

/// The list of systems that `system` declares to run before (`before`) or
/// to run after (`!before`).
pub open spec fn declared(system: SystemDescriptor, before: bool) -> Seq<u64> {
    if before {
        system.before@
    } else {
        system.after@
    }
}

/// The `steps`-th ancestor of system `i` names system `k` at position `p`
/// of its `before` list (`before`) or of its `after` list (`!before`).
pub open spec fn names(
    systems: Seq<SystemDescriptor>,
    i: int,
    k: int,
    before: bool,
    steps: nat,
    p: int,
) -> bool {
    match ancestor(systems, i, steps) {
        Some(a) => 0 <= a < systems.len() && 0 <= p < declared(systems[a], before).len()
            && system_index(systems, declared(systems[a], before)[p]) == Some(k),
        None => false,
    }
}

/// System `i` declares, itself or through an ancestor, that it runs
/// before system `k` (`before`) or after it (`!before`). The parent links
/// are followed for as many steps as there are systems, which reaches every
/// ancestor.
pub open spec fn declares(systems: Seq<SystemDescriptor>, i: int, k: int, before: bool) -> bool {
    exists|steps: nat, p: int|
        steps <= systems.len() && #[trigger] names(systems, i, k, before, steps, p)
}

/// System `i` declares, itself or through an ancestor, that it runs after system `k`.
pub open spec fn declares_after(systems: Seq<SystemDescriptor>, i: int, k: int) -> bool {
    declares(systems, i, k, false)
}

/// System `i` declares, itself or through an ancestor, that it runs before system `k`.
pub open spec fn declares_before(systems: Seq<SystemDescriptor>, i: int, k: int) -> bool {
    declares(systems, i, k, true)
}

/// System `x` belongs to a default group that runs before the group of system `y`.
pub open spec fn group_before(systems: Seq<SystemDescriptor>, x: int, y: int) -> bool {
    match (parent_rank(systems[x]), parent_rank(systems[y])) {
        (Some(rx), Some(ry)) => rx < ry,
        _ => false,
    }
}

/// The declared orderings put system `x` before system `y`.
pub open spec fn explicit_edge(systems: Seq<SystemDescriptor>, x: int, y: int) -> bool {
    &&& 0 <= x < systems.len()
    &&& 0 <= y < systems.len()
    &&& x != y
    &&& (declares_after(systems, y, x) || declares_before(systems, x, y) || group_before(
        systems,
        x,
        y,
    ))
}

/// Whether two lists of component types have a type in common.
pub open spec fn intersects(a: Seq<u64>, b: Seq<u64>) -> bool {
    exists|p: int, q: int| 0 <= p < a.len() && 0 <= q < b.len() && #[trigger] a[p] == #[trigger] b[q]
}

/// Whether systems `x` and `y` conflict: one writes a component type that
/// the other reads or writes.
pub open spec fn conflicts(systems: Seq<SystemDescriptor>, x: int, y: int) -> bool {
    ||| intersects(systems[x].writes@, systems[y].reads@)
    ||| intersects(systems[x].writes@, systems[y].writes@)
    ||| intersects(systems[x].reads@, systems[y].writes@)
}

/// The conflict between systems `x < y` puts `x` first: `x` writes a
/// component type that `y` reads or writes. (A writer runs before its
/// readers, and of two writers the one with the lower index runs first.)
pub open spec fn conflict_forward(systems: Seq<SystemDescriptor>, x: int, y: int) -> bool {
    intersects(systems[x].writes@, systems[y].reads@) || intersects(
        systems[x].writes@,
        systems[y].writes@,
    )
}

/// The graph has an edge from system `x` to system `y`: `x` must run in
/// an earlier wavefront than `y`.
///
/// The declared orderings come first. A pair of conflicting systems that
/// they do not order in either direction is ordered by the conflict.
pub open spec fn edge(systems: Seq<SystemDescriptor>, x: int, y: int) -> bool {
    &&& 0 <= x < systems.len()
    &&& 0 <= y < systems.len()
    &&& x != y
    &&& (explicit_edge(systems, x, y) || (!explicit_edge(systems, y, x) && if x < y {
        conflict_forward(systems, x, y)
    } else {
        !conflict_forward(systems, y, x) && intersects(systems[y].reads@, systems[x].writes@)
    }))
}

/// The rank of a default group.
fn rank_of_group(id: u64) -> (r: Option<u8>)
    ensures
        match r {
            Some(rank) => group_rank(id) == Some(rank as nat),
            None => group_rank(id).is_none(),
        },
{
    if id == INITIALIZATION_GROUP {
        Some(0)
    } else if id == SIMULATION_GROUP {
        Some(1)
    } else if id == CLEANUP_GROUP {
        Some(2)
    } else if id == DESTROY_GROUP {
        Some(3)
    } else {
        None
    }
}

/// The index of the system with type `id`: the last one, where several have it.
pub fn find_system(systems: &Vec<SystemDescriptor>, id: u64) -> (r: Option<usize>)
    ensures
        match r {
            Some(i) => system_index(systems@, id) == Some(i as int) && i < systems@.len(),
            None => system_index(systems@, id).is_none(),
        },
{
    let mut k: usize = systems.len();
    proof {
        assert(systems@.take(k as int) =~= systems@);
    }
    while k > 0
        invariant
            k <= systems@.len(),
            system_index(systems@, id) == system_index(systems@.take(k as int), id),
        decreases k,
    {
        k -= 1;
        proof {
            assert(systems@.take(k + 1).last() == systems@[k as int]);
            assert(systems@.take(k + 1).drop_last() =~= systems@.take(k as int));
        }
        if systems[k].type_id == id {
            return Some(k);
        }
    }
    proof {
        assert(systems@.take(0).len() == 0);
    }
    None
}

/// Whether two lists of component types have a type in common.
pub fn lists_intersect(a: &Vec<u64>, b: &Vec<u64>) -> (r: bool)
    ensures
        r == intersects(a@, b@),
{
    let mut p: usize = 0;
    while p < a.len()
        invariant
            p <= a@.len(),
            forall|i: int, j: int| 0 <= i < p && 0 <= j < b@.len() ==> a@[i] != b@[j],
        decreases a@.len() - p,
    {
        let mut q: usize = 0;
        while q < b.len()
            invariant
                p < a@.len(),
                q <= b@.len(),
                forall|j: int| 0 <= j < q ==> a@[p as int] != b@[j],
            decreases b@.len() - q,
        {
            if a[p] == b[q] {
                return true;
            }
            q += 1;
        }
        p += 1;
    }
    false
}

/// Whether `list` names system `k`.
fn list_names(systems: &Vec<SystemDescriptor>, list: &Vec<u64>, k: usize) -> (r: bool)
    ensures
        r == exists|p: int|
            0 <= p < list@.len() && system_index(systems@, #[trigger] list@[p]) == Some(k as int),
{
    let mut p: usize = 0;
    while p < list.len()
        invariant
            p <= list@.len(),
            forall|q: int|
                0 <= q < p ==> system_index(systems@, #[trigger] list@[q]) != Some(k as int),
        decreases list@.len() - p,
    {
        match find_system(systems, list[p]) {
            Some(found) => {
                if found == k {
                    return true;
                }
            },
            None => {},
        }
        p += 1;
    }
    false
}

/// Once the chain of ancestors ends, it has ended for good.
proof fn lemma_ancestor_ends(systems: Seq<SystemDescriptor>, i: int, from: nat, to: nat)
    requires
        from <= to,
        ancestor(systems, i, from).is_none(),
    ensures
        ancestor(systems, i, to).is_none(),
    decreases to - from,
{
    if from < to {
        lemma_ancestor_ends(systems, i, from, (to - 1) as nat);
    }
}

/// The index of a system is an index of the list, and the system there has the type.
pub proof fn lemma_system_index_in_range(systems: Seq<SystemDescriptor>, id: u64)
    ensures
        match system_index(systems, id) {
            Some(k) => 0 <= k < systems.len() && systems[k].type_id == id,
            None => forall|j: int| 0 <= j < systems.len() ==> (#[trigger] systems[j]).type_id != id,
        },
    decreases systems.len(),
{
    if systems.len() > 0 && systems.last().type_id != id {
        lemma_system_index_in_range(systems.drop_last(), id);
        match system_index(systems.drop_last(), id) {
            Some(k) => {
                assert(systems.drop_last()[k] == systems[k]);
            },
            None => {
                assert forall|j: int| 0 <= j < systems.len() implies (
                #[trigger] systems[j]).type_id != id by {
                    if j < systems.len() - 1 {
                        assert(systems.drop_last()[j] == systems[j]);
                    }
                }
            },
        }
    }
}

/// Whether system `i` declares, itself or through an ancestor, that it
/// runs before system `k` (`before`) or after it (`!before`).
pub fn system_declares(systems: &Vec<SystemDescriptor>, i: usize, k: usize, before: bool) -> (r:
    bool)
    requires
        i < systems@.len(),
    ensures
        r == declares(systems@, i as int, k as int, before),
{
    let n = systems.len();
    let mut a: usize = i;
    let mut steps: usize = 0;
    loop
        invariant
            n == systems@.len(),
            steps <= n,
            a < n,
            i < n,
            ancestor(systems@, i as int, steps as nat) == Some(a as int),
            forall|s: nat, p: int|
                s < steps ==> !#[trigger] names(systems@, i as int, k as int, before, s, p),
        decreases n - steps,
    {
        let found = if before {
            list_names(systems, &systems[a].before, k)
        } else {
            list_names(systems, &systems[a].after, k)
        };
        if found {
            proof {
                let p = choose|p: int|
                    0 <= p < declared(systems@[a as int], before).len() && system_index(
                        systems@,
                        #[trigger] declared(systems@[a as int], before)[p],
                    ) == Some(k as int);
                assert(names(systems@, i as int, k as int, before, steps as nat, p));
            }
            return true;
        }
        let next = match systems[a].parent {
            Some(id) => find_system(systems, id),
            None => None,
        };
        proof {
            assert(ancestor(systems@, i as int, (steps + 1) as nat) == match next {
                Some(x) => Some(x as int),
                None => None,
            });
        }
        match next {
            Some(parent) => {
                if steps == n {
                    return false;
                }
                a = parent;
                steps += 1;
            },
            None => {
                proof {
                    assert forall|s: nat, p: int| s <= n implies !#[trigger] names(
                        systems@,
                        i as int,
                        k as int,
                        before,
                        s,
                        p,
                    ) by {
                        if s > steps {
                            lemma_ancestor_ends(systems@, i as int, (steps + 1) as nat, s);
                        }
                    }
                }
                return false;
            },
        }
    }
}

/// Whether the declared orderings put system `x` before system `y`.
pub fn has_explicit_edge(systems: &Vec<SystemDescriptor>, x: usize, y: usize) -> (r: bool)
    requires
        x < systems@.len(),
        y < systems@.len(),
    ensures
        r == explicit_edge(systems@, x as int, y as int),
{
    if x == y {
        return false;
    }
    if system_declares(systems, y, x, false) {
        return true;
    }
    if system_declares(systems, x, y, true) {
        return true;
    }
    let rank_x = match systems[x].parent {
        Some(id) => rank_of_group(id),
        None => None,
    };
    let rank_y = match systems[y].parent {
        Some(id) => rank_of_group(id),
        None => None,
    };
    match (rank_x, rank_y) {
        (Some(rx), Some(ry)) => rx < ry,
        _ => false,
    }
}

/// Whether the graph has an edge from system `x` to system `y`.
pub fn has_edge(systems: &Vec<SystemDescriptor>, x: usize, y: usize) -> (r: bool)
    requires
        x < systems@.len(),
        y < systems@.len(),
    ensures
        r == edge(systems@, x as int, y as int),
{
    if x == y {
        return false;
    }
    if has_explicit_edge(systems, x, y) {
        return true;
    }
    if has_explicit_edge(systems, y, x) {
        return false;
    }
    if x < y {
        lists_intersect(&systems[x].writes, &systems[y].reads) || lists_intersect(
            &systems[x].writes,
            &systems[y].writes,
        )
    } else {
        let forward = lists_intersect(&systems[y].writes, &systems[x].reads) || lists_intersect(
            &systems[y].writes,
            &systems[x].writes,
        );
        !forward && lists_intersect(&systems[y].reads, &systems[x].writes)
    }
}

/// The dependency graph of the systems as a matrix: the entry at `x`, `y`
/// says whether there is an edge from system `x` to system `y`.
pub open spec fn graph_of(systems: Seq<SystemDescriptor>) -> Seq<Seq<bool>> {
    Seq::new(systems.len(), |x: int| Seq::new(systems.len(), |y: int| edge(systems, x, y)))
}

/// System `i` declares, itself or through an ancestor, that it runs
/// before or after itself. No schedule can meet that.
pub open spec fn self_dependent(systems: Seq<SystemDescriptor>, i: int) -> bool {
    declares(systems, i, i, false) || declares(systems, i, i, true)
}

/// Some system is self-dependent.
pub open spec fn some_self_dependent(systems: Seq<SystemDescriptor>) -> bool {
    exists|i: int| 0 <= i < systems.len() && self_dependent(systems, i)
}

/// `system` is the first system in the order of the wavefronts that is
/// self-dependent.
pub open spec fn first_self_dependent(
    systems: Seq<SystemDescriptor>,
    fronts: Seq<Vec<usize>>,
    system: int,
) -> bool {
    exists|k: int, p: int|
        {
            &&& 0 <= k < fronts.len()
            &&& 0 <= p < fronts[k]@.len()
            &&& #[trigger] fronts[k]@[p] == system
            &&& self_dependent(systems, system)
            &&& forall|j: int, q: int|
                0 <= j < fronts.len() && 0 <= q < fronts[j]@.len() && (j < k || (j == k && q < p))
                    ==> !self_dependent(systems, #[trigger] fronts[j]@[q] as int)
        }
}

/// What an error says of the systems: a circular dependency lists, in
/// ascending order, exactly the systems that no wavefront takes, each of
/// which waits for another of them; a non-deterministic ordering names the first
/// system, in the order of the schedule, that declares an ordering against
/// itself.
pub open spec fn explains(systems: Seq<SystemDescriptor>, error: SchedulerError) -> bool {
    match error {
        SchedulerError::CircularDependency { remaining } => is_rest(graph_of(systems), remaining@),
        SchedulerError::NonDeterministicOrdering { system, dependency } => {
            &&& system == dependency
            &&& exists|fronts: Seq<Vec<usize>>|
                #[trigger] is_schedule(graph_of(systems), fronts) && first_self_dependent(
                    systems,
                    fronts,
                    system as int,
                )
        },
    }
}

/// The dependency graph of the systems.
fn build_graph(systems: &Vec<SystemDescriptor>) -> (adj: Vec<Vec<bool>>)
    ensures
        matrix(adj@) == graph_of(systems@),
        square(matrix(adj@)),
        adj@.len() == systems@.len(),
{
    let n = systems.len();
    let mut adj: Vec<Vec<bool>> = Vec::with_capacity(n);
    let mut x: usize = 0;
    while x < n
        invariant
            n == systems@.len(),
            x <= n,
            adj@.len() == x,
            forall|i: int| 0 <= i < x ==> (#[trigger] adj@[i])@.len() == n,
            forall|i: int, j: int|
                0 <= i < x && 0 <= j < n ==> (#[trigger] adj@[i]@[j]) == edge(systems@, i, j),
        decreases n - x,
    {
        let mut row: Vec<bool> = Vec::with_capacity(n);
        let mut y: usize = 0;
        while y < n
            invariant
                n == systems@.len(),
                x < n,
                y <= n,
                row@.len() == y,
                forall|j: int| 0 <= j < y ==> #[trigger] row@[j] == edge(systems@, x as int, j),
            decreases n - y,
        {
            row.push(has_edge(systems, x, y));
            y += 1;
        }
        adj.push(row);
        x += 1;
    }
    proof {
        assert(matrix(adj@) =~= graph_of(systems@)) by {
            assert forall|i: int| 0 <= i < n implies #[trigger] matrix(adj@)[i] =~= graph_of(
                systems@,
            )[i] by {
                assert(adj@[i]@.len() == n);
            }
        }
    }
    adj
}

/// Compute the wavefronts of the systems.
///
/// The dependency graph has an edge for every ordering that a system
/// declares, itself or through a parent, for every pair of systems of which
/// one belongs to an earlier default group than the other, and for every
/// conflict between two systems that these orderings leave open. Its
/// wavefronts are the layers of Kahn's algorithm, each in ascending order of
/// the systems' indices.
///
/// A cycle in the graph is refused with `CircularDependency`, which lists
/// the systems that could not be scheduled. Every declared ordering between
/// two systems is an edge, so the wavefronts respect it; a system that
/// declares an ordering against itself is refused with
/// `NonDeterministicOrdering`.
pub fn compute_wavefronts(systems: &Vec<SystemDescriptor>) -> (r: Result<
    Vec<Vec<usize>>,
    SchedulerError,
>)
    ensures
        match r {
            Ok(fronts) => {
                &&& is_schedule(graph_of(systems@), fronts@)
                &&& forall|i: int| 0 <= i < systems@.len() ==> !self_dependent(systems@, i)
            },
            Err(error) => explains(systems@, error),
        },
        r.is_ok() <==> has_schedule(graph_of(systems@)) && !some_self_dependent(systems@),
        (r matches Err(SchedulerError::CircularDependency { .. })) <==> !has_schedule(
            graph_of(systems@),
        ),
{
    let adj = build_graph(systems);
    let fronts = match wavefronts_of_graph(&adj) {
        Err(remaining) => {
            return Err(SchedulerError::CircularDependency { remaining });
        },
        Ok(fronts) => fronts,
    };
    // Every declared ordering is an edge of the graph; what is left to
    // check is a system that declares an ordering against itself.
    let n = systems.len();
    let ghost graph = graph_of(systems@);
    let ghost layer = choose|layer: Seq<int>| #[trigger]
        layered(graph, layer) && lists_layers(layer, fronts@);
    let mut k: usize = 0;
    while k < fronts.len()
        invariant
            n == systems@.len(),
            graph == graph_of(systems@),
            is_schedule(graph, fronts@),
            layered(graph, layer) && lists_layers(layer, fronts@),
            k <= fronts@.len(),
            forall|j: int, q: int|
                0 <= j < k && 0 <= q < fronts@[j]@.len() ==> !self_dependent(
                    systems@,
                    #[trigger] fronts@[j]@[q] as int,
                ),
        decreases fronts@.len() - k,
    {
        let mut p: usize = 0;
        while p < fronts[k].len()
            invariant
                n == systems@.len(),
                graph == graph_of(systems@),
                is_schedule(graph, fronts@),
                layered(graph, layer) && lists_layers(layer, fronts@),
                k < fronts@.len(),
                p <= fronts@[k as int]@.len(),
                forall|j: int, q: int|
                    0 <= j < fronts@.len() && 0 <= q < fronts@[j]@.len() && (j < k || (j == k && q
                        < p)) ==> !self_dependent(systems@, #[trigger] fronts@[j]@[q] as int),
            decreases fronts@[k as int]@.len() - p,
        {
            let system = fronts[k][p];
            proof {
                assert(fronts@[k as int]@[p as int] < layer.len());
            }
            if system_declares(systems, system, system, false) || system_declares(
                systems,
                system,
                system,
                true,
            ) {
                proof {
                    assert(fronts@[k as int]@[p as int] == system);
                    assert(first_self_dependent(systems@, fronts@, system as int));
                    assert(self_dependent(systems@, system as int));
                }
                return Err(SchedulerError::NonDeterministicOrdering { system, dependency: system });
            }
            p += 1;
        }
        k += 1;
    }
    proof {
        assert forall|i: int| 0 <= i < systems@.len() implies !self_dependent(systems@, i) by {
            assert(0 <= layer[i] < fronts@.len());
            let q = choose|q: int|
                0 <= q < fronts@[layer[i]]@.len() && #[trigger] fronts@[layer[i]]@[q] == i;
            assert(!self_dependent(systems@, fronts@[layer[i]]@[q] as int));
        }
    }
    Ok(fronts)
}

/// The systems of a schedule, and the wavefronts in which they run.
pub struct Scheduler {
    /// The systems, in the order in which they were given.
    pub systems: Vec<SystemDescriptor>,
    /// Each wavefront holds the indices of systems that may run in parallel.
    pub wavefronts: Vec<Vec<usize>>,
}

impl Scheduler {
    /// The wavefronts are the schedule of the systems.
    pub open spec fn wf(&self) -> bool {
        &&& is_schedule(graph_of(self.systems@), self.wavefronts@)
        &&& forall|i: int| 0 <= i < self.systems@.len() ==> !self_dependent(self.systems@, i)
    }

    /// A scheduler for `systems`, from which the wavefronts are computed;
    /// without systems there are no wavefronts.
    pub fn new(systems: Vec<SystemDescriptor>) -> (r: Result<Scheduler, SchedulerError>)
        ensures
            match r {
                Ok(scheduler) => scheduler.systems == systems && scheduler.wf(),
                Err(error) => explains(systems@, error),
            },
            r.is_ok() <==> has_schedule(graph_of(systems@)) && !some_self_dependent(systems@),
            (r matches Err(SchedulerError::CircularDependency { .. })) <==> !has_schedule(
                graph_of(systems@),
            ),
    {
        match compute_wavefronts(&systems) {
            Ok(wavefronts) => Ok(Scheduler { systems, wavefronts }),
            Err(e) => Err(e),
        }
    }

    /// A scheduler for `systems`; the same as `new`.
    pub fn from_systems(systems: Vec<SystemDescriptor>) -> (r: Result<Scheduler, SchedulerError>)
        ensures
            match r {
                Ok(scheduler) => scheduler.systems == systems && scheduler.wf(),
                Err(error) => explains(systems@, error),
            },
            r.is_ok() <==> has_schedule(graph_of(systems@)) && !some_self_dependent(systems@),
            (r matches Err(SchedulerError::CircularDependency { .. })) <==> !has_schedule(
                graph_of(systems@),
            ),
    {
        Scheduler::new(systems)
    }

    /// The computed wavefronts.
    pub fn wavefronts(&self) -> (w: &Vec<Vec<usize>>)
        ensures
            *w == self.wavefronts,
    {
        &self.wavefronts
    }

    /// The systems, in the order in which they were given.
    pub fn systems(&self) -> (s: &Vec<SystemDescriptor>)
        ensures
            *s == self.systems,
    {
        &self.systems
    }

    /// The number of systems.
    pub fn len(&self) -> (n: usize)
        ensures
            n == self.systems@.len(),
    {
        self.systems.len()
    }

    /// Whether there are no systems.
    pub fn is_empty(&self) -> (r: bool)
        ensures
            r == (self.systems@.len() == 0),
    {
        self.systems.len() == 0
    }

    /// The order in which the systems run one after the other: the
    /// wavefronts, flattened.
    pub fn run_sequential(&self) -> (order: Vec<usize>)
        ensures
            order@ == flattened(self.wavefronts@),
    {
        let mut order: Vec<usize> = Vec::new();
        let mut k: usize = 0;
        while k < self.wavefronts.len()
            invariant
                k <= self.wavefronts@.len(),
                order@ == flattened(self.wavefronts@.take(k as int)),
            decreases self.wavefronts@.len() - k,
        {
            let mut p: usize = 0;
            let ghost start = order@;
            while p < self.wavefronts[k].len()
                invariant
                    k < self.wavefronts@.len(),
                    p <= self.wavefronts@[k as int]@.len(),
                    order@ == start + self.wavefronts@[k as int]@.take(p as int),
                decreases self.wavefronts@[k as int]@.len() - p,
            {
                order.push(self.wavefronts[k][p]);
                proof {
                    assert(self.wavefronts@[k as int]@.take(p + 1) =~= self.wavefronts@[k as int]@.take(
                        p as int,
                    ).push(self.wavefronts@[k as int]@[p as int]));
                }
                p += 1;
            }
            proof {
                assert(self.wavefronts@[k as int]@.take(p as int) =~= self.wavefronts@[k as int]@);
                assert(self.wavefronts@.take(k + 1).drop_last() =~= self.wavefronts@.take(k as int));
                assert(self.wavefronts@.take(k + 1).last() == self.wavefronts@[k as int]);
            }
            k += 1;
        }
        proof {
            assert(self.wavefronts@.take(k as int) =~= self.wavefronts@);
        }
        order
    }
}

/// The wavefronts one after the other, as one list.
pub open spec fn flattened(fronts: Seq<Vec<usize>>) -> Seq<usize>
    decreases fronts.len(),
{
    if fronts.len() == 0 {
        Seq::empty()
    } else {
        flattened(fronts.drop_last()) + fronts.last()@
    }
}

/// **A schedule exists exactly when no systems are stuck.** Where the
/// systems have wavefronts, no set of systems waits for itself.
pub proof fn lemma_no_cycle(
    systems: Seq<SystemDescriptor>,
    fronts: Seq<Vec<usize>>,
    remaining: Seq<usize>,
)
    requires
        is_schedule(graph_of(systems), fronts),
    ensures
        !stuck(graph_of(systems), remaining),
{
    lemma_schedule_excludes_stuck(graph_of(systems), fronts, remaining);
}

/// **Scheduler determinism.** The wavefronts are determined by the
/// dependency graph: two schedules of the same systems are the same
/// sequence of wavefronts.
pub proof fn lemma_wavefronts_determined(
    systems: Seq<SystemDescriptor>,
    first: Seq<Vec<usize>>,
    second: Seq<Vec<usize>>,
)
    requires
        is_schedule(graph_of(systems), first),
        is_schedule(graph_of(systems), second),
    ensures
        first.len() == second.len(),
        forall|k: int| 0 <= k < first.len() ==> (#[trigger] first[k])@ == second[k]@,
{
    lemma_schedule_unique(graph_of(systems), first, second);
}

/// **Systems of one wavefront do not conflict.** Two different systems of
/// the same wavefront are not ordered by any declaration, and neither
/// writes a component type that the other reads or writes.
pub proof fn lemma_wavefront_conflict_free(
    systems: Seq<SystemDescriptor>,
    fronts: Seq<Vec<usize>>,
    k: int,
    p: int,
    q: int,
)
    requires
        is_schedule(graph_of(systems), fronts),
        0 <= k < fronts.len(),
        0 <= p < fronts[k]@.len(),
        0 <= q < fronts[k]@.len(),
        p != q,
    ensures
        !conflicts(systems, fronts[k]@[p] as int, fronts[k]@[q] as int),
        !explicit_edge(systems, fronts[k]@[p] as int, fronts[k]@[q] as int),
{
    let x = fronts[k]@[p] as int;
    let y = fronts[k]@[q] as int;
    let graph = graph_of(systems);
    lemma_wavefront_independent(graph, fronts, k, p, q);
    lemma_wavefront_independent(graph, fronts, k, q, p);
    let layer = choose|layer: Seq<int>| #[trigger] layered(graph, layer) && lists_layers(layer, fronts);
    assert(x < systems.len() && y < systems.len());
    assert(x != y) by {
        if p < q {
            assert(fronts[k]@[p] < fronts[k]@[q]);
        } else {
            assert(fronts[k]@[q] < fronts[k]@[p]);
        }
    }
    assert(arc(graph, x, y) == edge(systems, x, y));
    assert(arc(graph, y, x) == edge(systems, y, x));
    lemma_intersects_symmetric(systems[x].reads@, systems[y].writes@);
    lemma_intersects_symmetric(systems[x].writes@, systems[y].reads@);
    lemma_intersects_symmetric(systems[x].writes@, systems[y].writes@);
}

/// Two lists have a type in common whichever is looked at first.
pub proof fn lemma_intersects_symmetric(a: Seq<u64>, b: Seq<u64>)
    ensures
        intersects(a, b) == intersects(b, a),
{
    if intersects(a, b) {
        let (p, q) = choose|p: int, q: int|
            0 <= p < a.len() && 0 <= q < b.len() && #[trigger] a[p] == #[trigger] b[q];
        assert(b[q] == a[p]);
    }
    if intersects(b, a) {
        let (p, q) = choose|p: int, q: int|
            0 <= p < b.len() && 0 <= q < a.len() && #[trigger] b[p] == #[trigger] a[q];
        assert(a[q] == b[p]);
    }
}

} // verus!
