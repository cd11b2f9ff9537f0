//! The containment tree. A job groups processes under limits that a child job
//! may tighten but never loosen; killing a job stops its whole subtree,
//! innermost first.
use vstd::prelude::*;
use crate::error::KError;
use crate::object::ObjectId;
use crate::rights::{subset, Rights};
use crate::slots;
use crate::thread::ThreadId;

verus! {

/// Jobs the table holds.
pub const MAX_JOBS: usize = 16;

/// Member processes a single job may hold.
pub const MAX_MEMBERS_PER_JOB: usize = 8;

/// Child jobs a single job may hold.
pub const MAX_CHILDREN_PER_JOB: usize = 8;

/// State-port signals a job raises on its `state_source`.
pub const SIGNAL_MEMBER_EXIT: u8 = 1;

pub const SIGNAL_EMPTY: u8 = 2;

/// A raw job identifier: an index into the job table.
#[derive(Clone, Copy, PartialEq, Eq, Debug, Structural)]
pub struct JobId(pub usize);

/// The object-count ceilings a job enforces on its members.
#[derive(Clone, Copy, PartialEq, Eq, Debug, Structural)]
pub struct JobLimits {
    pub max_processes: u32,
}

impl JobLimits {
    pub fn new(max_processes: u32) -> (l: JobLimits)
        ensures
            l.max_processes == max_processes,
    {
        JobLimits { max_processes }
    }

    /// Whether these limits are no looser than `ancestor`'s: the tighten-only
    /// rule.
    pub fn within(&self, ancestor: &JobLimits) -> (b: bool)
        ensures
            b == (self.max_processes <= ancestor.max_processes),
    {
        self.max_processes <= ancestor.max_processes
    }
}

/// A member process and its (single) thread: what a kill needs to terminate
/// it.
#[derive(Clone, Copy, PartialEq, Eq, Debug, Structural)]
pub struct Member {
    pub process: ObjectId,
    pub thread: ThreadId,
}

/// One node in the containment tree.
pub struct Job {
    object: ObjectId,
    parent: Option<JobId>,
    children: Vec<Option<JobId>>,
    members: Vec<Option<Member>>,
    limits: JobLimits,
    /// Abstract event source for this job's state port.
    state_source: u64,
    killed: bool,
}

/// What a [`Job`] holds.
#[verifier::ext_equal]
pub struct JobView {
    pub object: ObjectId,
    pub parent: Option<JobId>,
    pub children: Seq<Option<JobId>>,
    pub members: Seq<Option<Member>>,
    pub limits: JobLimits,
    pub state_source: u64,
    pub killed: bool,
}

impl JobView {
    /// A job with no children and no members.
    pub open spec fn fresh(object: ObjectId, parent: Option<JobId>, limits: JobLimits) -> JobView {
        JobView {
            object,
            parent,
            children: slots::empty(MAX_CHILDREN_PER_JOB as nat),
            members: slots::empty(MAX_MEMBERS_PER_JOB as nat),
            limits,
            state_source: object.0 as u64,
            killed: false,
        }
    }

    /// How many members the job has.
    pub open spec fn population(self) -> nat {
        slots::count(self.members, slots::used::<Member>())
    }

    /// The first free member slot, or the capacity.
    pub open spec fn member_vacancy(self) -> int {
        slots::first(self.members, slots::free::<Member>())
    }

    /// The first free child slot, or the capacity.
    pub open spec fn child_vacancy(self) -> int {
        slots::first(self.children, slots::free::<JobId>())
    }
}

impl View for Job {
    type V = JobView;

    closed spec fn view(&self) -> JobView {
        JobView {
            object: self.object,
            parent: self.parent,
            children: self.children@,
            members: self.members@,
            limits: self.limits,
            state_source: self.state_source,
            killed: self.killed,
        }
    }
}

impl Job {
    fn new(object: ObjectId, parent: Option<JobId>, limits: JobLimits) -> (j: Job)
        ensures
            j@ == JobView::fresh(object, parent, limits),
    {
        Job {
            object,
            parent,
            children: slots::empty_slots(MAX_CHILDREN_PER_JOB),
            members: slots::empty_slots(MAX_MEMBERS_PER_JOB),
            limits,
            state_source: object.raw() as u64,
            killed: false,
        }
    }

    pub fn object(&self) -> (r: ObjectId)
        ensures
            r == self@.object,
    {
        self.object
    }

    pub fn parent(&self) -> (r: Option<JobId>)
        ensures
            r == self@.parent,
    {
        self.parent
    }

    pub fn limits(&self) -> (r: JobLimits)
        ensures
            r == self@.limits,
    {
        self.limits
    }

    pub fn state_source(&self) -> (r: u64)
        ensures
            r == self@.state_source,
    {
        self.state_source
    }

    pub fn is_killed(&self) -> (b: bool)
        ensures
            b == self@.killed,
    {
        self.killed
    }

    /// The number of member processes currently in this job.
    pub fn member_count(&self) -> (n: usize)
        ensures
            n == self@.population(),
    {
        slots::count_used(&self.members)
    }

    /// The member slots.
    pub fn members(&self) -> (m: &[Option<Member>])
        ensures
            m@ == self@.members,
    {
        self.members.as_slice()
    }
}

/// A fixed pool of jobs forming the containment forest.
pub struct JobTable {
    jobs: Vec<Option<Job>>,
}

/// What a [`JobTable`] holds.
pub type JobsView = Seq<Option<JobView>>;

/// The view of an optional job.
pub open spec fn job_view(j: Option<Job>) -> Option<JobView> {
    match j {
        Some(j) => Some(j@),
        None => None,
    }
}

/// The job `id` names, if there is one.
pub open spec fn job_at(t: JobsView, id: JobId) -> Option<JobView> {
    if id.0 < MAX_JOBS {
        t[id.0 as int]
    } else {
        None
    }
}

/// The index an optional job id names.
pub open spec fn index_of(id: Option<JobId>) -> int {
    match id {
        Some(id) => id.0 as int,
        None => -1,
    }
}

/// Job `i` is sound: it stands after its parent and inside its ceiling, its
/// children stand after it and name it as their parent, none twice, and it has
/// no more members than it may.
pub open spec fn node_wf(t: JobsView, i: int) -> bool {
    t[i] matches Some(j) ==> {
        &&& j.children.len() == MAX_CHILDREN_PER_JOB
        &&& j.members.len() == MAX_MEMBERS_PER_JOB
        &&& j.population() <= j.limits.max_processes
        &&& j.parent matches Some(p) ==> p.0 < i && t[p.0 as int] is Some && j.limits.max_processes
            <= t[p.0 as int]->0.limits.max_processes
        &&& forall|k: int|
            0 <= k < MAX_CHILDREN_PER_JOB ==> ((#[trigger] j.children[k]) matches Some(c) ==> i
                < c.0 < MAX_JOBS && t[c.0 as int] is Some && t[c.0 as int]->0.parent == Some(
                JobId(i as usize),
            ))
        &&& forall|k: int, l: int|
            0 <= k < l < MAX_CHILDREN_PER_JOB && (#[trigger] j.children[k]) is Some && (
            #[trigger] j.children[l]) is Some ==> j.children[k] != j.children[l]
    }
}

/// The table has its capacity, is filled from the front, and every job in it
/// is sound.
pub open spec fn jobs_wf(t: JobsView) -> bool {
    &&& t.len() == MAX_JOBS
    &&& forall|i: int, j: int|
        0 <= i < j < MAX_JOBS && (#[trigger] t[j]) is Some ==> (#[trigger] t[i]) is Some
    &&& forall|i: int| 0 <= i < MAX_JOBS ==> #[trigger] node_wf(t, i)
}

/// The first free job slot, or the capacity.
pub open spec fn job_vacancy(t: JobsView) -> int {
    slots::first(t, slots::free::<JobView>())
}

/// The table after a child of `parent` takes the first free slot, not yet
/// linked into its parent.
pub open spec fn child_made(
    t: JobsView,
    parent: JobId,
    object: ObjectId,
    limits: JobLimits,
) -> JobsView {
    t.update(job_vacancy(t), Some(JobView::fresh(object, Some(parent), limits)))
}

/// The table after a child of `parent` is made and linked.
pub open spec fn child_linked(
    t: JobsView,
    parent: JobId,
    object: ObjectId,
    limits: JobLimits,
) -> JobsView {
    let made = child_made(t, parent, object, limits);
    let p = t[parent.0 as int]->0;
    made.update(
        parent.0 as int,
        Some(
            JobView {
                children: p.children.update(
                    p.child_vacancy(),
                    Some(JobId(job_vacancy(t) as usize)),
                ),
                ..p
            },
        ),
    )
}

/// The jobs under `i`, `i` last: every child's subtree in turn, then the job
/// itself.
pub open spec fn post_order(t: JobsView, i: int) -> Seq<JobId>
    decreases MAX_JOBS - i, 1nat, 0nat,
{
    if 0 <= i < MAX_JOBS && t[i] is Some {
        subtrees(t, i, t[i]->0.children.len()).push(JobId(i as usize))
    } else {
        Seq::empty()
    }
}

/// The subtrees of the children in the first `k` child slots of `i`, in order.
pub open spec fn subtrees(t: JobsView, i: int, k: nat) -> Seq<JobId>
    decreases MAX_JOBS - i, 0nat, k,
    when 0 <= i < MAX_JOBS
{
    if k == 0 {
        Seq::empty()
    } else {
        let before = subtrees(t, i, (k - 1) as nat);
        match t[i]->0.children[k - 1] {
            Some(c) => if i < c.0 < MAX_JOBS {
                before + post_order(t, c.0 as int)
            } else {
                before
            },
            None => before,
        }
    }
}

/// Whether `x` is `i` or linked somewhere below it.
pub open spec fn descends(t: JobsView, x: int, i: int) -> bool
    decreases x,
{
    x == i || (0 < x < MAX_JOBS && t[x] is Some && t[x]->0.parent is Some && index_of(t[x]->0.parent) < x
        && linked(t, x) && descends(t, index_of(t[x]->0.parent), i))
}

/// Whether `x` is in its parent's list of children.
pub open spec fn linked(t: JobsView, x: int) -> bool {
    t[index_of(t[x]->0.parent)] is Some && t[index_of(t[x]->0.parent)]->0.children.contains(
        Some(JobId(x as usize)),
    )
}

/// The table after every job of `killed` is marked.
pub open spec fn marked(t: JobsView, killed: Seq<JobId>) -> JobsView {
    Seq::new(
        t.len(),
        |i: int|
            match t[i] {
                Some(j) => if killed.contains(JobId(i as usize)) {
                    Some(JobView { killed: true, ..j })
                } else {
                    Some(j)
                },
                None => None,
            },
    )
}

/// The concatenated subtrees of the jobs on a stack, bottom first.
spec fn flat(t: JobsView, stack: Seq<JobId>) -> Seq<JobId>
    decreases stack.len(),
{
    if stack.len() == 0 {
        Seq::empty()
    } else {
        flat(t, stack.drop_last()) + post_order(t, stack.last().0 as int)
    }
}

/// Everything listed under `i` descends from it, and everything that descends
/// from it is listed.
proof fn lemma_post_order_members(t: JobsView, i: int)
    requires
        jobs_wf(t),
        0 <= i < MAX_JOBS,
        t[i] is Some,
    ensures
        forall|k: int|
            0 <= k < post_order(t, i).len() ==> descends(
                t,
                (#[trigger] post_order(t, i)[k]).0 as int,
                i,
            ) && i <= post_order(t, i)[k].0 < MAX_JOBS,
    decreases MAX_JOBS - i, 1nat, 0nat,
{
    let j = t[i]->0;
    assert(node_wf(t, i));
    lemma_subtrees_members(t, i, j.children.len());
    let under = subtrees(t, i, j.children.len());
    let all = post_order(t, i);
    assert forall|k: int| 0 <= k < all.len() implies descends(
        t,
        (#[trigger] all[k]).0 as int,
        i,
    ) && i <= all[k].0 < MAX_JOBS by {
        if k < under.len() {
            assert(all[k] == under[k]);
        } else {
            assert(all[k] == JobId(i as usize));
        }
    }
}

proof fn lemma_subtrees_members(t: JobsView, i: int, k: nat)
    requires
        jobs_wf(t),
        0 <= i < MAX_JOBS,
        t[i] is Some,
        k <= MAX_CHILDREN_PER_JOB,
    ensures
        forall|n: int|
            0 <= n < subtrees(t, i, k).len() ==> {
                let x = #[trigger] subtrees(t, i, k)[n];
                &&& descends(t, x.0 as int, i)
                &&& i < x.0 < MAX_JOBS
                &&& exists|m: int|
                    0 <= m < k && (#[trigger] t[i]->0.children[m]) is Some && descends(
                        t,
                        x.0 as int,
                        index_of(t[i]->0.children[m]),
                    )
            },
    decreases MAX_JOBS - i, 0nat, k,
{
    if k > 0 {
        let j = t[i]->0;
        assert(node_wf(t, i));
        lemma_subtrees_members(t, i, (k - 1) as nat);
        let before = subtrees(t, i, (k - 1) as nat);
        let all = subtrees(t, i, k);
        match j.children[k - 1] {
            Some(c) => {
                lemma_post_order_members(t, c.0 as int);
                let post = post_order(t, c.0 as int);
                assert forall|n: int| 0 <= n < all.len() implies {
                    let x = #[trigger] all[n];
                    &&& descends(t, x.0 as int, i)
                    &&& i < x.0 < MAX_JOBS
                    &&& exists|m: int|
                        0 <= m < k && (#[trigger] j.children[m]) is Some && descends(
                            t,
                            x.0 as int,
                            index_of(j.children[m]),
                        )
                } by {
                    if n < before.len() {
                        assert(all[n] == before[n]);
                        let m = choose|m: int|
                            0 <= m < k - 1 && (#[trigger] j.children[m]) is Some && descends(
                                t,
                                before[n].0 as int,
                                index_of(j.children[m]),
                            );
                        assert(j.children[m] is Some);
                    } else {
                        assert(all[n] == post[n - before.len()]);
                        assert(j.children[k - 1] is Some);
                        assert(linked(t, c.0 as int)) by {
                            assert(j.children[k - 1] == Some(JobId(c.0)));
                        }
                        assert(descends(t, c.0 as int, i)) by {
                            assert(descends(t, i, i));
                        }
                        lemma_descends_trans(t, all[n].0 as int, c.0 as int, i);
                    }
                }
            },
            None => {},
        }
    }
}

proof fn lemma_descends_trans(t: JobsView, x: int, y: int, z: int)
    requires
        descends(t, x, y),
        descends(t, y, z),
    ensures
        descends(t, x, z),
    decreases x,
{
    if x != y {
        lemma_descends_trans(t, index_of(t[x]->0.parent), y, z);
    }
}

/// A job that descends from another stands no earlier.
proof fn lemma_descends_after(t: JobsView, x: int, i: int)
    requires
        descends(t, x, i),
    ensures
        x >= i,
    decreases x,
{
    if x != i {
        lemma_descends_after(t, index_of(t[x]->0.parent), i);
    }
}

/// Of two jobs one descends from, one descends from the other.
proof fn lemma_descends_linear(t: JobsView, x: int, a: int, b: int)
    requires
        descends(t, x, a),
        descends(t, x, b),
    ensures
        descends(t, a, b) || descends(t, b, a),
    decreases x,
{
    if x != a && x != b {
        lemma_descends_linear(t, index_of(t[x]->0.parent), a, b);
    }
}

/// Nothing descends from two children of one job.
proof fn lemma_children_disjoint(t: JobsView, x: int, i: int, k: int, l: int)
    requires
        jobs_wf(t),
        0 <= i < MAX_JOBS,
        t[i] is Some,
        0 <= k < l < MAX_CHILDREN_PER_JOB,
        t[i]->0.children[k] is Some,
        t[i]->0.children[l] is Some,
    ensures
        !(descends(t, x, index_of(t[i]->0.children[k])) && descends(
            t,
            x,
            index_of(t[i]->0.children[l]),
        )),
{
    assert(node_wf(t, i));
    let a = index_of(t[i]->0.children[k]);
    let b = index_of(t[i]->0.children[l]);
    assert(a != b);
    if descends(t, x, a) && descends(t, x, b) {
        lemma_descends_linear(t, x, a, b);
        if descends(t, a, b) {
            lemma_descends_after(t, i, b);
        } else {
            lemma_descends_after(t, i, a);
        }
    }
}

/// No job is listed twice.
proof fn lemma_post_order_distinct(t: JobsView, i: int)
    requires
        jobs_wf(t),
        0 <= i < MAX_JOBS,
        t[i] is Some,
    ensures
        post_order(t, i).no_duplicates(),
    decreases MAX_JOBS - i, 1nat, 0nat,
{
    assert(node_wf(t, i));
    lemma_subtrees_distinct(t, i, t[i]->0.children.len());
    lemma_subtrees_members(t, i, t[i]->0.children.len());
}

proof fn lemma_subtrees_distinct(t: JobsView, i: int, k: nat)
    requires
        jobs_wf(t),
        0 <= i < MAX_JOBS,
        t[i] is Some,
        k <= MAX_CHILDREN_PER_JOB,
    ensures
        subtrees(t, i, k).no_duplicates(),
    decreases MAX_JOBS - i, 0nat, k,
{
    if k > 0 {
        let j = t[i]->0;
        assert(node_wf(t, i));
        lemma_subtrees_distinct(t, i, (k - 1) as nat);
        lemma_subtrees_members(t, i, (k - 1) as nat);
        let before = subtrees(t, i, (k - 1) as nat);
        match j.children[k - 1] {
            Some(c) => {
                lemma_post_order_distinct(t, c.0 as int);
                lemma_post_order_members(t, c.0 as int);
                let post = post_order(t, c.0 as int);
                assert forall|m: int, n: int|
                    0 <= m < before.len() && 0 <= n < post.len() implies before[m] != post[n] by {
                    if before[m] == post[n] {
                        let s = choose|s: int|
                            0 <= s < k - 1 && (#[trigger] j.children[s]) is Some && descends(
                                t,
                                before[m].0 as int,
                                index_of(j.children[s]),
                            );
                        lemma_children_disjoint(t, before[m].0 as int, i, s, k - 1);
                    }
                }
            },
            None => {},
        }
    }
}

/// A list of distinct job ids is no longer than the table.
proof fn lemma_distinct_bounded(s: Seq<JobId>)
    requires
        s.no_duplicates(),
        forall|k: int| 0 <= k < s.len() ==> (#[trigger] s[k]).0 < MAX_JOBS,
    ensures
        s.len() <= MAX_JOBS,
{
    let ids = s.map_values(|id: JobId| id.0 as int);
    assert(ids.no_duplicates()) by {
        assert forall|a: int, b: int| 0 <= a < b < ids.len() implies ids[a] != ids[b] by {
            assert(s[a] != s[b]);
        }
    }
    ids.unique_seq_to_set();
    let all = vstd::set_lib::set_int_range(0, MAX_JOBS as int);
    vstd::set_lib::lemma_int_range(0, MAX_JOBS as int);
    assert(ids.to_set().subset_of(all)) by {
        assert forall|x: int| ids.to_set().contains(x) implies all.contains(x) by {
            let k = choose|k: int| 0 <= k < ids.len() && ids[k] == x;
            assert(s[k].0 < MAX_JOBS);
        }
    }
    vstd::set_lib::lemma_len_subset(ids.to_set(), all);
}

/// A subtree has no more jobs than the table, all of them in it.
pub proof fn lemma_post_order_fits(t: JobsView, i: int)
    requires
        jobs_wf(t),
        0 <= i < MAX_JOBS,
        t[i] is Some,
    ensures
        post_order(t, i).len() <= MAX_JOBS,
        forall|k: int|
            0 <= k < post_order(t, i).len() ==> (#[trigger] post_order(t, i)[k]).0 < MAX_JOBS
                && t[post_order(t, i)[k].0 as int] is Some,
{
    lemma_post_order_distinct(t, i);
    lemma_post_order_members(t, i);
    lemma_distinct_bounded(post_order(t, i));
}

/// Every job on a stack of live jobs contributes at least itself.
proof fn lemma_flat_len(t: JobsView, stack: Seq<JobId>)
    requires
        forall|k: int|
            0 <= k < stack.len() ==> (#[trigger] stack[k]).0 < MAX_JOBS && t[stack[k].0 as int] is Some,
    ensures
        flat(t, stack).len() >= stack.len(),
    decreases stack.len(),
{
    if stack.len() > 0 {
        assert forall|k: int| 0 <= k < stack.drop_last().len() implies (
        #[trigger] stack.drop_last()[k]).0 < MAX_JOBS && t[stack.drop_last()[k].0 as int] is Some by {
            assert(stack.drop_last()[k] == stack[k]);
        }
        lemma_flat_len(t, stack.drop_last());
        assert(stack.last() == stack[stack.len() - 1]);
    }
}

impl View for JobTable {
    type V = JobsView;

    closed spec fn view(&self) -> JobsView {
        Seq::new(self.jobs@.len(), |i: int| job_view(self.jobs@[i]))
    }
}

impl JobTable {
    /// The table's invariant.
    pub open spec fn wf(&self) -> bool {
        jobs_wf(self@)
    }

    pub fn new() -> (t: JobTable)
        ensures
            t.wf(),
            t@ == slots::empty::<JobView>(MAX_JOBS as nat),
    {
        let t = JobTable { jobs: slots::empty_slots(MAX_JOBS) };
        assert(t@ =~= slots::empty::<JobView>(MAX_JOBS as nat));
        t
    }

    /// Creates a root job (no parent). A boot-privileged operation: no right is
    /// required.
    pub fn create_root(&mut self, object: ObjectId, limits: JobLimits) -> (r: Result<JobId, KError>)
        requires
            old(self).wf(),
        ensures
            final(self).wf(),
            match r {
                Ok(id) => {
                    &&& id.0 == job_vacancy(old(self)@)
                    &&& id.0 < MAX_JOBS
                    &&& final(self)@ == old(self)@.update(
                        id.0 as int,
                        Some(JobView::fresh(object, None, limits)),
                    )
                },
                Err(e) => {
                    &&& e == KError::OutOfMemory
                    &&& job_vacancy(old(self)@) == MAX_JOBS
                    &&& final(self)@ == old(self)@
                },
            },
    {
        let index: usize = match self.free_slot() {
            Ok(i) => i,
            Err(e) => {
                return Err(e);
            },
        };
        self.jobs[index] = Some(Job::new(object, None, limits));
        proof {
            let fresh = JobView::fresh(object, None, limits);
            assert(self@ =~= old(self)@.update(index as int, Some(fresh)));
            slots::lemma_count_zero(fresh.members, slots::used::<Member>());
            lemma_fill(old(self)@, index as int, fresh);
        }
        Ok(JobId(index))
    }

    /// Creates a child job under `parent`. Requires `CREATE_JOB` on the parent
    /// and enforces the tighten-only rule: the child's limits may not exceed the
    /// parent's ceiling. When the parent has no room left for another child the
    /// job slot stays taken, by a job nothing links to.
    pub fn create_child(
        &mut self,
        parent: JobId,
        object: ObjectId,
        limits: JobLimits,
        caller_rights: Rights,
    ) -> (r: Result<JobId, KError>)
        requires
            old(self).wf(),
        ensures
            final(self).wf(),
            ({
                let t = old(self)@;
                match r {
                    Ok(id) => {
                        &&& subset(Rights::CREATE_JOB, caller_rights@)
                        &&& job_at(t, parent) matches Some(p)
                        &&& !p.killed
                        &&& limits.max_processes <= p.limits.max_processes
                        &&& job_vacancy(t) < MAX_JOBS
                        &&& p.child_vacancy() < MAX_CHILDREN_PER_JOB
                        &&& id.0 == job_vacancy(t)
                        &&& final(self)@ == child_linked(t, parent, object, limits)
                    },
                    Err(e) => if !subset(Rights::CREATE_JOB, caller_rights@) {
                        e == KError::AccessDenied && final(self)@ == t
                    } else {
                        match job_at(t, parent) {
                            None => e == KError::BadHandle && final(self)@ == t,
                            Some(p) => if p.killed {
                                e == KError::BadHandle && final(self)@ == t
                            } else if limits.max_processes > p.limits.max_processes {
                                e == KError::LimitExceeded && final(self)@ == t
                            } else if job_vacancy(t) == MAX_JOBS {
                                e == KError::OutOfMemory && final(self)@ == t
                            } else {
                                &&& e == KError::OutOfMemory
                                &&& p.child_vacancy() == MAX_CHILDREN_PER_JOB
                                &&& final(self)@ == child_made(t, parent, object, limits)
                            },
                        }
                    },
                }
            }),
    {
        if !caller_rights.contains(Rights::from_bits(Rights::CREATE_JOB)) {
            return Err(KError::AccessDenied);
        }
        match self.job(parent) {
            None => {
                return Err(KError::BadHandle);
            },
            Some(p) => {
                if p.killed {
                    return Err(KError::BadHandle);
                }
                if !limits.within(&p.limits) {
                    return Err(KError::LimitExceeded);
                }
            },
        }
        let index: usize = match self.free_slot() {
            Ok(i) => i,
            Err(e) => {
                return Err(e);
            },
        };
        let ghost t = self@;
        let ghost fresh = JobView::fresh(object, Some(parent), limits);
        proof {
            slots::lemma_first(t, slots::free::<JobView>());
            if parent.0 >= index {
                assert(t[index as int] is None);
                assert(t[parent.0 as int] is Some);
            }
            slots::lemma_count_zero(fresh.members, slots::used::<Member>());
            lemma_fill(t, index as int, fresh);
        }
        self.jobs[index] = Some(Job::new(object, Some(parent), limits));
        assert(self@ =~= child_made(t, parent, object, limits));
        let child = JobId(index);
        assert(self@[parent.0 as int] == t[parent.0 as int]);
        assert(self@[parent.0 as int] == job_view(self.jobs@[parent.0 as int]));
        let ghost p = t[parent.0 as int]->0;
        assert(node_wf(t, parent.0 as int));
        match &mut self.jobs[parent.0] {
            Some(job) => {
                assert((*job)@ == p);
                match slots::find_free(&job.children) {
                    None => {},
                    Some(slot) => {
                        job.children[slot] = Some(child);
                        assert((*job)@ =~= JobView {
                            children: p.children.update(slot as int, Some(child)),
                            ..p
                        });
                    },
                }
            },
            None => {},
        }
        if self.is_linked(parent, child) {
            proof {
                slots::lemma_first(p.children, slots::free::<JobId>());
                assert(self@ =~= child_linked(t, parent, object, limits));
                lemma_link(t, parent, object, limits);
            }
            Ok(child)
        } else {
            assert(self@ =~= child_made(t, parent, object, limits));
            Err(KError::OutOfMemory)
        }
    }

    /// Adds a member process (with its thread) to `job`. Requires
    /// `CREATE_PROCESS`; the member-count ceiling rejects the create with
    /// [`KError::LimitExceeded`] rather than degrading the system.
    pub fn add_process(&mut self, job: JobId, member: Member, caller_rights: Rights) -> (r: Result<
        (),
        KError,
    >)
        requires
            old(self).wf(),
        ensures
            final(self).wf(),
            ({
                let t = old(self)@;
                match r {
                    Ok(_) => {
                        &&& subset(Rights::CREATE_PROCESS, caller_rights@)
                        &&& job_at(t, job) matches Some(j)
                        &&& !j.killed
                        &&& j.population() < j.limits.max_processes
                        &&& j.member_vacancy() < MAX_MEMBERS_PER_JOB
                        &&& final(self)@ == t.update(
                            job.0 as int,
                            Some(
                                JobView {
                                    members: j.members.update(j.member_vacancy(), Some(member)),
                                    ..j
                                },
                            ),
                        )
                    },
                    Err(e) => {
                        &&& final(self)@ == t
                        &&& if !subset(Rights::CREATE_PROCESS, caller_rights@) {
                            e == KError::AccessDenied
                        } else {
                            match job_at(t, job) {
                                None => e == KError::BadHandle,
                                Some(j) => if j.killed {
                                    e == KError::BadHandle
                                } else if j.population() >= j.limits.max_processes {
                                    e == KError::LimitExceeded
                                } else {
                                    e == KError::OutOfMemory && j.member_vacancy()
                                        == MAX_MEMBERS_PER_JOB
                                },
                            }
                        }
                    },
                }
            }),
    {
        if !caller_rights.contains(Rights::from_bits(Rights::CREATE_PROCESS)) {
            return Err(KError::AccessDenied);
        }
        let slot: usize = match self.job(job) {
            None => {
                return Err(KError::BadHandle);
            },
            Some(j) => {
                assert(node_wf(self@, job.0 as int));
                if j.killed {
                    return Err(KError::BadHandle);
                }
                proof {
                    slots::lemma_count_bound(j@.members, slots::used::<Member>());
                }
                let n: usize = j.member_count();
                if n as u32 >= j.limits.max_processes {
                    return Err(KError::LimitExceeded);
                }
                match slots::find_free(&j.members) {
                    None => {
                        return Err(KError::OutOfMemory);
                    },
                    Some(slot) => slot,
                }
            },
        };
        let ghost t = self@;
        let ghost j = t[job.0 as int]->0;
        assert(self@[job.0 as int] == job_view(self.jobs@[job.0 as int]));
        match &mut self.jobs[job.0] {
            Some(entry) => {
                entry.members[slot] = Some(member);
                assert((*entry)@ =~= JobView {
                    members: j.members.update(slot as int, Some(member)),
                    ..j
                });
            },
            None => {},
        }
        proof {
            let k = JobView { members: j.members.update(slot as int, Some(member)), ..j };
            assert(self@ =~= t.update(job.0 as int, Some(k)));
            slots::lemma_count_update(
                j.members,
                slots::used::<Member>(),
                slot as int,
                Some(member),
            );
            assert forall|i: int, n: int|
                0 <= i < n < MAX_JOBS && (#[trigger] self@[n]) is Some implies (
            #[trigger] self@[i]) is Some by {
                assert(t[n] is Some);
                assert(t[i] is Some);
            }
            assert forall|i: int| 0 <= i < MAX_JOBS implies #[trigger] node_wf(self@, i) by {
                assert(node_wf(t, i));
            }
        }
        Ok(())
    }

    /// Lists the `root` subtree's jobs innermost-first (every descendant before
    /// its ancestor) in `order`, returns the count, and marks each job killed.
    /// Requires `KILL`. The caller then terminates each job's member threads
    /// and signals its state port in this order. [`KError::OutOfMemory`] when
    /// `order` is too short.
    pub fn kill_order(
        &mut self,
        root: JobId,
        caller_rights: Rights,
        order: &mut [Option<JobId>],
    ) -> (r: Result<usize, KError>)
        requires
            old(self).wf(),
        ensures
            final(self).wf(),
            final(order)@.len() == old(order)@.len(),
            ({
                let t = old(self)@;
                let list = post_order(t, root.0 as int);
                match r {
                    Ok(n) => {
                        &&& subset(Rights::KILL, caller_rights@)
                        &&& job_at(t, root) is Some
                        &&& n == list.len()
                        &&& n <= old(order)@.len()
                        &&& forall|i: int|
                            0 <= i < old(order)@.len() ==> #[trigger] final(order)@[i] == (if i
                                < n {
                                Some(list[i])
                            } else {
                                old(order)@[i]
                            })
                        &&& final(self)@ == marked(t, list)
                    },
                    Err(e) => {
                        &&& final(self)@ == t
                        &&& final(order)@ == old(order)@
                        &&& if !subset(Rights::KILL, caller_rights@) {
                            e == KError::AccessDenied
                        } else if job_at(t, root) is None {
                            e == KError::BadHandle
                        } else {
                            e == KError::OutOfMemory && old(order)@.len() < list.len()
                        }
                    },
                }
            }),
    {
        if !caller_rights.contains(Rights::from_bits(Rights::KILL)) {
            return Err(KError::AccessDenied);
        }
        if self.job(root).is_none() {
            return Err(KError::BadHandle);
        }
        let pre: Vec<JobId> = self.pre_order(root);
        let ghost t = self@;
        let ghost list = post_order(t, root.0 as int);
        let n: usize = pre.len();
        if order.len() < n {
            return Err(KError::OutOfMemory);
        }
        // Reverse the parents-before-children list: every ancestor now follows
        // all its descendants.
        let mut i: usize = 0;
        while i < n
            invariant
                i <= n,
                n == pre@.len(),
                list == pre@.reverse(),
                n <= order@.len(),
                order@.len() == old(order)@.len(),
                forall|k: int|
                    0 <= k < order@.len() ==> #[trigger] order@[k] == (if k < i {
                        Some(list[k])
                    } else {
                        old(order)@[k]
                    }),
            decreases n - i,
        {
            order[i] = Some(pre[n - 1 - i]);
            i += 1;
        }
        self.mark_killed(&pre);
        proof {
            assert forall|x: JobId| pre@.contains(x) == list.contains(x) by {
                if pre@.contains(x) {
                    let k = choose|k: int| 0 <= k < pre@.len() && pre@[k] == x;
                    assert(list[n - 1 - k] == x);
                }
                if list.contains(x) {
                    let k = choose|k: int| 0 <= k < list.len() && list[k] == x;
                    assert(pre@[n - 1 - k] == x);
                }
            }
            assert(marked(t, pre@) =~= marked(t, list));
        }
        Ok(n)
    }

    /// The subtree under `root`, every job before its descendants: a depth-first
    /// walk with an explicit stack.
    fn pre_order(&self, root: JobId) -> (pre: Vec<JobId>)
        requires
            self.wf(),
            job_at(self@, root) is Some,
        ensures
            pre@.reverse() == post_order(self@, root.0 as int),
            pre@.len() == post_order(self@, root.0 as int).len(),
    {
        let ghost t = self@;
        let ghost list = post_order(t, root.0 as int);
        let mut pre: Vec<JobId> = Vec::new();
        let mut stack: Vec<JobId> = Vec::new();
        stack.push(root);
        proof {
            assert(stack@.drop_last() =~= Seq::<JobId>::empty());
            assert(flat(t, stack@) =~= list) by {
                reveal_with_fuel(flat, 2);
            }
            assert(flat(t, stack@) + pre@.reverse() =~= list);
            lemma_post_order_distinct(t, root.0 as int);
            lemma_post_order_members(t, root.0 as int);
            lemma_distinct_bounded(list);
        }
        while stack.len() > 0
            invariant
                self.wf(),
                t == self@,
                list.len() <= MAX_JOBS,
                flat(t, stack@) + pre@.reverse() == list,
                forall|k: int|
                    0 <= k < stack@.len() ==> (#[trigger] stack@[k]).0 < MAX_JOBS
                        && t[stack@[k].0 as int] is Some,
            decreases MAX_JOBS - pre@.len(),
        {
            let ghost whole = stack@;
            let ghost seen = pre@;
            proof {
                lemma_flat_len(t, stack@);
                assert(list.len() == flat(t, stack@).len() + pre@.len());
            }
            let top = stack.pop();
            if let Some(id) = top {
                let ghost rest = whole.drop_last();
                assert(stack@ =~= rest);
                assert(id == whole[whole.len() - 1]);
                pre.push(id);
                if let Some(job) = self.job(id) {
                    assert(node_wf(t, id.0 as int));
                    let mut k: usize = 0;
                    while k < job.children.len()
                        invariant
                            jobs_wf(t),
                            t[id.0 as int] == Some(job@),
                            id.0 < MAX_JOBS,
                            node_wf(t, id.0 as int),
                            k <= job.children@.len(),
                            job.children@.len() == MAX_CHILDREN_PER_JOB,
                            flat(t, stack@) == flat(t, rest) + subtrees(
                                t,
                                id.0 as int,
                                k as nat,
                            ),
                            forall|m: int|
                                0 <= m < stack@.len() ==> (#[trigger] stack@[m]).0 < MAX_JOBS
                                    && t[stack@[m].0 as int] is Some,
                        decreases job.children@.len() - k,
                    {
                        let ghost s = stack@;
                        if let Some(child) = job.children[k] {
                            assert(job@.children[k as int] == Some(child));
                            stack.push(child);
                            proof {
                                assert(stack@.drop_last() =~= s);
                                assert(flat(t, stack@) =~= flat(t, rest) + subtrees(
                                    t,
                                    id.0 as int,
                                    (k + 1) as nat,
                                ));
                            }
                        } else {
                            assert(job@.children[k as int] is None);
                        }
                        k += 1;
                    }
                    proof {
                        let under = subtrees(t, id.0 as int, k as nat);
                        assert(post_order(t, id.0 as int) == under.push(id));
                        assert(flat(t, whole) == flat(t, rest) + under.push(id));
                        assert(pre@.reverse() =~= seq![id] + seen.reverse());
                        assert(flat(t, stack@) + pre@.reverse() =~= flat(t, whole)
                            + seen.reverse());
                    }
                }
            }
        }
        assert(flat(t, stack@) + pre@.reverse() =~= pre@.reverse());
        pre
    }

    fn mark_killed(&mut self, ids: &Vec<JobId>)
        requires
            old(self).wf(),
        ensures
            final(self).wf(),
            final(self)@ == marked(old(self)@, ids@),
    {
        let ghost t = self@;
        let mut i: usize = 0;
        assert(marked(t, ids@.take(0)) =~= t) by {
            assert forall|x: JobId| !ids@.take(0).contains(x) by {}
        }
        while i < ids.len()
            invariant
                i <= ids@.len(),
                t.len() == MAX_JOBS,
                self@ == marked(t, ids@.take(i as int)),
            decreases ids@.len() - i,
        {
            let id = ids[i];
            let ghost before = self@;
            let ghost done = ids@.take(i as int);
            let ghost more = ids@.take(i + 1);
            proof {
                assert(more =~= done.push(id));
                assert forall|x: JobId| more.contains(x) == (done.contains(x) || x == id) by {
                    if done.contains(x) {
                        let k = choose|k: int| 0 <= k < done.len() && done[k] == x;
                        assert(more[k] == x);
                    }
                    if x == id {
                        assert(more[i as int] == x);
                    }
                    if more.contains(x) && x != id {
                        let k = choose|k: int| 0 <= k < more.len() && more[k] == x;
                        assert(done[k] == x);
                    }
                }
            }
            if id.0 < self.jobs.len() {
                assert(self@[id.0 as int] == job_view(self.jobs@[id.0 as int]));
                if self.jobs[id.0].is_some() {
                    match &mut self.jobs[id.0] {
                        Some(job) => {
                            let ghost j = (*job)@;
                            job.killed = true;
                            assert((*job)@ =~= JobView { killed: true, ..j });
                            assert(before[id.0 as int] == Some(j));
                        },
                        None => {},
                    }
                    proof {
                        let at = id.0 as int;
                        assert(JobId(at as usize) == id);
                        assert(self@ =~= before.update(
                            at,
                            Some(JobView { killed: true, ..before[at]->0 }),
                        ));
                        assert forall|k: int| 0 <= k < t.len() implies #[trigger] self@[k]
                            == marked(t, more)[k] by {
                            if k != at {
                                assert(JobId(k as usize) != id);
                            }
                        }
                    }
                    assert(self@ =~= marked(t, more));
                } else {
                    assert(self@ =~= marked(t, more));
                }
            } else {
                assert(self@ =~= marked(t, more));
            }
            i += 1;
        }
        assert(ids@.take(i as int) =~= ids@);
        proof {
            lemma_marked_wf(t, ids@);
        }
    }

    fn is_linked(&self, parent: JobId, child: JobId) -> (b: bool)
        requires
            self@.len() == MAX_JOBS,
        ensures
            b == (job_at(self@, parent) matches Some(p) && p.children.contains(Some(child))),
    {
        match self.job_raw(parent) {
            None => false,
            Some(p) => {
                let mut k: usize = 0;
                while k < p.children.len()
                    invariant
                        job_at(self@, parent) == Some(p@),
                        k <= p.children@.len(),
                        forall|m: int| 0 <= m < k ==> p.children@[m] != Some(child),
                    decreases p.children@.len() - k,
                {
                    if let Some(c) = p.children[k] {
                        if c == child {
                            assert(p@.children[k as int] == Some(child));
                            return true;
                        }
                    }
                    k += 1;
                }
                false
            },
        }
    }

    fn job_raw(&self, id: JobId) -> (r: Option<&Job>)
        requires
            self@.len() == MAX_JOBS,
        ensures
            match r {
                Some(j) => job_at(self@, id) == Some(j@),
                None => job_at(self@, id) is None,
            },
    {
        if id.0 >= self.jobs.len() {
            return None;
        }
        assert(self@[id.0 as int] == job_view(self.jobs@[id.0 as int]));
        self.jobs[id.0].as_ref()
    }

    /// The job `id` names.
    pub fn job(&self, id: JobId) -> (r: Option<&Job>)
        requires
            self.wf(),
        ensures
            match r {
                Some(j) => job_at(self@, id) == Some(j@),
                None => job_at(self@, id) is None,
            },
    {
        self.job_raw(id)
    }

    /// The job `id` names, to change. A job exposes nothing that changes it, so
    /// the table stays sound as long as the job is left as it was found.
    pub fn job_mut(&mut self, id: JobId) -> (r: Option<&mut Job>)
        requires
            old(self).wf(),
        ensures
            match r {
                Some(j) => {
                    &&& id.0 < MAX_JOBS
                    &&& old(self)@[id.0 as int] == Some((*j)@)
                    &&& final(self)@ == old(self)@.update(id.0 as int, Some((*final(j))@))
                    &&& (*final(j))@ == (*j)@ ==> final(self).wf()
                },
                None => {
                    &&& job_at(old(self)@, id) is None
                    &&& final(self).wf()
                    &&& final(self)@ == old(self)@
                },
            },
    {
        if id.0 >= self.jobs.len() {
            return None;
        }
        assert(self@[id.0 as int] == job_view(self.jobs@[id.0 as int]));
        if self.jobs[id.0].is_none() {
            return None;
        }
        match &mut self.jobs[id.0] {
            Some(j) => {
                assert(after_borrow(self)@ =~= old(self)@.update(id.0 as int, Some((*final(j))@)));
                assert(old(self)@.update(id.0 as int, old(self)@[id.0 as int]) =~= old(self)@);
                Some(j)
            },
            None => None,
        }
    }

    fn free_slot(&self) -> (r: Result<usize, KError>)
        requires
            self.wf(),
        ensures
            match r {
                Ok(i) => i == job_vacancy(self@) && i < MAX_JOBS && self@[i as int] is None,
                Err(e) => e == KError::OutOfMemory && job_vacancy(self@) == MAX_JOBS,
            },
    {
        let mut i: usize = 0;
        while i < MAX_JOBS
            invariant
                self.wf(),
                i <= MAX_JOBS,
                forall|j: int| 0 <= j < i ==> !slots::free::<JobView>()(#[trigger] self@[j]),
            decreases MAX_JOBS - i,
        {
            assert(self@[i as int] == job_view(self.jobs@[i as int]));
            if self.jobs[i].is_none() {
                proof {
                    slots::lemma_first_is(self@, slots::free::<JobView>(), i as int);
                }
                return Ok(i);
            }
            i += 1;
        }
        proof {
            slots::lemma_first_is(self@, slots::free::<JobView>(), i as int);
        }
        Err(KError::OutOfMemory)
    }
}

/// Filling the first free slot with a childless job keeps the table sound.
proof fn lemma_fill(t: JobsView, index: int, fresh: JobView)
    requires
        jobs_wf(t),
        index == job_vacancy(t),
        index < MAX_JOBS,
        fresh.population() == 0,
        fresh.children == slots::empty::<JobId>(MAX_CHILDREN_PER_JOB as nat),
        fresh.members.len() == MAX_MEMBERS_PER_JOB,
        fresh.parent matches Some(p) ==> p.0 < index && t[p.0 as int] is Some
            && fresh.limits.max_processes <= t[p.0 as int]->0.limits.max_processes,
    ensures
        jobs_wf(t.update(index, Some(fresh))),
{
    slots::lemma_first(t, slots::free::<JobView>());
    let u = t.update(index, Some(fresh));
    assert(t[index] is None);
    assert forall|i: int, j: int|
        0 <= i < j < MAX_JOBS && (#[trigger] u[j]) is Some implies (#[trigger] u[i]) is Some by {
        if j == index {
            assert(!slots::free::<JobView>()(t[i]));
        } else if i != index {
            assert(t[j] is Some);
        }
    }
    assert forall|i: int| 0 <= i < MAX_JOBS implies #[trigger] node_wf(u, i) by {
        assert(node_wf(t, i));
    }
}

/// Linking the new job into its parent keeps the table sound.
proof fn lemma_link(t: JobsView, parent: JobId, object: ObjectId, limits: JobLimits)
    requires
        jobs_wf(t),
        job_at(t, parent) is Some,
        parent.0 < job_vacancy(t) < MAX_JOBS,
        t[parent.0 as int]->0.child_vacancy() < MAX_CHILDREN_PER_JOB,
        jobs_wf(child_made(t, parent, object, limits)),
    ensures
        jobs_wf(child_linked(t, parent, object, limits)),
{
    let made = child_made(t, parent, object, limits);
    let u = child_linked(t, parent, object, limits);
    let p = t[parent.0 as int]->0;
    let new = JobId(job_vacancy(t) as usize);
    slots::lemma_first(t, slots::free::<JobView>());
    assert(node_wf(t, parent.0 as int));
    slots::lemma_first(p.children, slots::free::<JobId>());
    assert forall|i: int, j: int|
        0 <= i < j < MAX_JOBS && (#[trigger] u[j]) is Some implies (#[trigger] u[i]) is Some by {
        assert(made[j] is Some);
        assert(made[i] is Some);
    }
    assert forall|i: int| 0 <= i < MAX_JOBS implies #[trigger] node_wf(u, i) by {
        assert(node_wf(made, i));
        assert(node_wf(t, i));
        if i == parent.0 {
            let q = u[i]->0;
            assert forall|k: int|
                0 <= k < MAX_CHILDREN_PER_JOB && (#[trigger] q.children[k]) is Some && k
                    != p.child_vacancy() implies q.children[k] != Some(new) by {
                assert(p.children[k] is Some);
                assert(t[index_of(p.children[k])] is Some);
                assert(t[new.0 as int] is None);
            }
            assert forall|k: int, l: int|
                0 <= k < l < MAX_CHILDREN_PER_JOB && (#[trigger] q.children[k]) is Some && (
                #[trigger] q.children[l]) is Some implies q.children[k] != q.children[l] by {
                if k != p.child_vacancy() && l != p.child_vacancy() {
                    assert(p.children[k] is Some && p.children[l] is Some);
                }
            }
        }
    }
}

/// Marking jobs killed keeps the table sound.
proof fn lemma_marked_wf(t: JobsView, ids: Seq<JobId>)
    requires
        jobs_wf(t),
    ensures
        jobs_wf(marked(t, ids)),
{
    let u = marked(t, ids);
    assert forall|i: int, j: int|
        0 <= i < j < MAX_JOBS && (#[trigger] u[j]) is Some implies (#[trigger] u[i]) is Some by {
        assert(t[j] is Some);
        assert(t[i] is Some);
    }
    assert forall|i: int| 0 <= i < MAX_JOBS implies #[trigger] node_wf(u, i) by {
        assert(node_wf(t, i));
    }
}

impl Default for JobTable {
    fn default() -> (t: JobTable)
        ensures
            t.wf(),
            t@ == slots::empty::<JobView>(MAX_JOBS as nat),
    {
        JobTable::new()
    }
}

/// What stands under a listed job is listed too.
proof fn lemma_post_order_closed(t: JobsView, i: int, y: int)
    requires
        jobs_wf(t),
        0 <= i < MAX_JOBS,
        t[i] is Some,
        0 <= y < MAX_JOBS,
        post_order(t, i).contains(JobId(y as usize)),
    ensures
        forall|x: JobId| post_order(t, y).contains(x) ==> post_order(t, i).contains(x),
    decreases MAX_JOBS - i, 1nat, 0nat,
{
    if y != i {
        let n = t[i]->0.children.len();
        let under = subtrees(t, i, n);
        let all = post_order(t, i);
        let k = choose|k: int| 0 <= k < all.len() && all[k] == JobId(y as usize);
        assert(k < under.len());
        assert(under[k] == JobId(y as usize));
        assert(node_wf(t, i));
        lemma_subtrees_closed(t, i, n, y);
        assert forall|x: JobId| post_order(t, y).contains(x) implies all.contains(x) by {
            let m = choose|m: int| 0 <= m < under.len() && under[m] == x;
            assert(all[m] == x);
        }
    }
}

proof fn lemma_subtrees_closed(t: JobsView, i: int, k: nat, y: int)
    requires
        jobs_wf(t),
        0 <= i < MAX_JOBS,
        t[i] is Some,
        0 <= y < MAX_JOBS,
        k <= MAX_CHILDREN_PER_JOB,
        subtrees(t, i, k).contains(JobId(y as usize)),
    ensures
        forall|x: JobId| post_order(t, y).contains(x) ==> subtrees(t, i, k).contains(x),
    decreases MAX_JOBS - i, 0nat, k,
{
    if k > 0 {
        assert(node_wf(t, i));
        let before = subtrees(t, i, (k - 1) as nat);
        let all = subtrees(t, i, k);
        let id = JobId(y as usize);
        match t[i]->0.children[k - 1] {
            Some(c) => {
                let post = post_order(t, c.0 as int);
                let m = choose|m: int| 0 <= m < all.len() && all[m] == id;
                if m < before.len() {
                    assert(before[m] == id);
                    lemma_subtrees_closed(t, i, (k - 1) as nat, y);
                } else {
                    assert(post[m - before.len()] == id);
                    lemma_post_order_closed(t, c.0 as int, y);
                }
                assert forall|x: JobId| post_order(t, y).contains(x) implies all.contains(x) by {
                    if before.contains(x) {
                        let n = choose|n: int| 0 <= n < before.len() && before[n] == x;
                        assert(all[n] == x);
                    } else {
                        let n = choose|n: int| 0 <= n < post.len() && post[n] == x;
                        assert(all[n + before.len()] == x);
                    }
                }
            },
            None => {
                lemma_subtrees_closed(t, i, (k - 1) as nat, y);
            },
        }
    }
}

/// A linked child is listed under its parent.
proof fn lemma_child_listed(t: JobsView, i: int, k: nat, s: int)
    requires
        jobs_wf(t),
        0 <= i < MAX_JOBS,
        t[i] is Some,
        k <= MAX_CHILDREN_PER_JOB,
        0 <= s < k,
        t[i]->0.children[s] is Some,
    ensures
        subtrees(t, i, k).contains(t[i]->0.children[s]->0),
    decreases k,
{
    assert(node_wf(t, i));
    let before = subtrees(t, i, (k - 1) as nat);
    let all = subtrees(t, i, k);
    let c = t[i]->0.children[s]->0;
    if s == k - 1 {
        let post = post_order(t, c.0 as int);
        assert(post.last() == c);
        assert(all[all.len() - 1] == c);
    } else {
        lemma_child_listed(t, i, (k - 1) as nat, s);
        let n = choose|n: int| 0 <= n < before.len() && before[n] == c;
        assert(all[n] == c);
    }
}

/// A kill reaches exactly the subtree: the jobs listed under `i` are `i` and
/// everything linked below it, each once.
pub proof fn law_kill_order_is_the_subtree(t: JobsView, i: int)
    requires
        jobs_wf(t),
        0 <= i < MAX_JOBS,
        t[i] is Some,
    ensures
        post_order(t, i).no_duplicates(),
        forall|x: int|
            0 <= x < MAX_JOBS ==> (#[trigger] post_order(t, i).contains(JobId(x as usize))
                <==> descends(t, x, i)),
{
    lemma_post_order_distinct(t, i);
    lemma_post_order_members(t, i);
    assert forall|x: int| 0 <= x < MAX_JOBS implies (#[trigger] post_order(t, i).contains(
        JobId(x as usize),
    ) <==> descends(t, x, i)) by {
        if descends(t, x, i) {
            lemma_descendant_listed(t, x, i);
        }
    }
}

proof fn lemma_descendant_listed(t: JobsView, x: int, i: int)
    requires
        jobs_wf(t),
        0 <= i < MAX_JOBS,
        t[i] is Some,
        0 <= x < MAX_JOBS,
        descends(t, x, i),
    ensures
        post_order(t, i).contains(JobId(x as usize)),
    decreases x,
{
    if x == i {
        assert(post_order(t, i).last() == JobId(i as usize));
    } else {
        let p = index_of(t[x]->0.parent);
        assert(node_wf(t, x));
        assert(node_wf(t, p));
        lemma_descendant_listed(t, p, i);
        let kids = t[p]->0.children;
        let s = choose|s: int| 0 <= s < kids.len() && kids[s] == Some(JobId(x as usize));
        lemma_child_listed(t, p, kids.len(), s);
        let under = subtrees(t, p, kids.len());
        let n = choose|n: int| 0 <= n < under.len() && under[n] == JobId(x as usize);
        assert(post_order(t, p)[n] == JobId(x as usize));
        lemma_post_order_closed(t, i, p);
    }
}

/// Innermost first: in a kill order no job stands before one that descends
/// from it.
pub proof fn law_kill_order_is_innermost_first(t: JobsView, i: int)
    requires
        jobs_wf(t),
        0 <= i < MAX_JOBS,
        t[i] is Some,
    ensures
        forall|a: int, b: int|
            0 <= a < b < post_order(t, i).len() ==> !descends(
                t,
                (#[trigger] post_order(t, i)[b]).0 as int,
                (#[trigger] post_order(t, i)[a]).0 as int,
            ),
    decreases MAX_JOBS - i, 1nat, 0nat,
{
    let n = t[i]->0.children.len();
    assert(node_wf(t, i));
    lemma_subtrees_ordered(t, i, n);
    lemma_subtrees_members(t, i, n);
    let under = subtrees(t, i, n);
    let all = post_order(t, i);
    assert forall|a: int, b: int| 0 <= a < b < all.len() implies !descends(
        t,
        (#[trigger] all[b]).0 as int,
        (#[trigger] all[a]).0 as int,
    ) by {
        assert(all[a] == under[a]);
        if b < under.len() {
            assert(all[b] == under[b]);
        } else {
            assert(all[b] == JobId(i as usize));
            if descends(t, i, under[a].0 as int) {
                lemma_descends_after(t, i, under[a].0 as int);
            }
        }
    }
}

proof fn lemma_subtrees_ordered(t: JobsView, i: int, k: nat)
    requires
        jobs_wf(t),
        0 <= i < MAX_JOBS,
        t[i] is Some,
        k <= MAX_CHILDREN_PER_JOB,
    ensures
        forall|a: int, b: int|
            0 <= a < b < subtrees(t, i, k).len() ==> !descends(
                t,
                (#[trigger] subtrees(t, i, k)[b]).0 as int,
                (#[trigger] subtrees(t, i, k)[a]).0 as int,
            ),
    decreases MAX_JOBS - i, 0nat, k,
{
    if k > 0 {
        assert(node_wf(t, i));
        let j = t[i]->0;
        let before = subtrees(t, i, (k - 1) as nat);
        let all = subtrees(t, i, k);
        lemma_subtrees_ordered(t, i, (k - 1) as nat);
        lemma_subtrees_members(t, i, (k - 1) as nat);
        match j.children[k - 1] {
            Some(c) => {
                let post = post_order(t, c.0 as int);
                law_kill_order_is_innermost_first(t, c.0 as int);
                lemma_post_order_members(t, c.0 as int);
                assert forall|a: int, b: int| 0 <= a < b < all.len() implies !descends(
                    t,
                    (#[trigger] all[b]).0 as int,
                    (#[trigger] all[a]).0 as int,
                ) by {
                    let m = before.len();
                    if b < m {
                        assert(all[a] == before[a] && all[b] == before[b]);
                    } else if a >= m {
                        assert(all[a] == post[a - m] && all[b] == post[b - m]);
                    } else {
                        assert(all[a] == before[a] && all[b] == post[b - m]);
                        let s = choose|s: int|
                            0 <= s < k - 1 && (#[trigger] j.children[s]) is Some && descends(
                                t,
                                before[a].0 as int,
                                index_of(j.children[s]),
                            );
                        if descends(t, all[b].0 as int, all[a].0 as int) {
                            lemma_descends_trans(
                                t,
                                all[b].0 as int,
                                all[a].0 as int,
                                index_of(j.children[s]),
                            );
                            lemma_children_disjoint(t, all[b].0 as int, i, s, k - 1);
                        }
                    }
                }
            },
            None => {},
        }
    }
}

/// Limits only tighten: no job below another has a looser ceiling.
pub proof fn law_limits_only_tighten(t: JobsView, x: int, i: int)
    requires
        jobs_wf(t),
        0 <= i < MAX_JOBS,
        0 <= x < MAX_JOBS,
        t[i] is Some,
        descends(t, x, i),
    ensures
        t[x] is Some,
        t[x]->0.limits.max_processes <= t[i]->0.limits.max_processes,
    decreases x,
{
    if x != i {
        assert(node_wf(t, x));
        law_limits_only_tighten(t, index_of(t[x]->0.parent), i);
    }
}

/// A new job has its object, its parent and its limits, and nothing in it; its
/// state is signalled under its object's number.
pub proof fn law_a_new_job_is_empty(
    object: ObjectId,
    parent: Option<JobId>,
    limits: JobLimits,
    k: int,
)
    ensures
        ({
            let j = JobView::fresh(object, parent, limits);
            &&& j.object == object && j.parent == parent && j.limits == limits
            &&& j.state_source == object.0
            &&& !j.killed
            &&& j.population() == 0
            &&& 0 <= k < MAX_CHILDREN_PER_JOB ==> j.children[k] is None
            &&& 0 <= k < MAX_MEMBERS_PER_JOB ==> j.members[k] is None
            &&& j.children.len() == MAX_CHILDREN_PER_JOB
            &&& j.members.len() == MAX_MEMBERS_PER_JOB
        }),
{
    let j = JobView::fresh(object, parent, limits);
    slots::lemma_count_zero(j.members, slots::used::<Member>());
}

/// A child job is made in a free place, under its parent and with its own limits,
/// and its parent lists it; every other job stays as it is.
pub proof fn law_a_child_job_is_its_parents(
    t: JobsView,
    parent: JobId,
    object: ObjectId,
    limits: JobLimits,
    k: int,
)
    requires
        jobs_wf(t),
        parent.0 < MAX_JOBS,
        t[parent.0 as int] is Some,
        job_vacancy(t) < MAX_JOBS,
        t[parent.0 as int]->0.child_vacancy() < MAX_CHILDREN_PER_JOB,
        0 <= k < MAX_JOBS,
    ensures
        ({
            let u = child_linked(t, parent, object, limits);
            let at = job_vacancy(t);
            let p = t[parent.0 as int]->0;
            &&& t[at] is None
            &&& u[at] matches Some(c)
            &&& c.object == object && c.parent == Some(parent) && c.limits == limits && !c.killed
            &&& u[parent.0 as int] matches Some(q)
            &&& p.children[p.child_vacancy()] is None
            &&& q.children[p.child_vacancy()] == Some(JobId(at as usize))
            &&& forall|i: int|
                0 <= i < MAX_CHILDREN_PER_JOB && i != p.child_vacancy() ==> #[trigger] q.children[i]
                    == p.children[i]
            &&& q.members == p.members && q.limits == p.limits && q.killed == p.killed
            &&& q.object == p.object && q.parent == p.parent
            &&& k != at && k != parent.0 ==> u[k] == t[k]
            &&& child_made(t, parent, object, limits)[at] == u[at]
            &&& k != at ==> child_made(t, parent, object, limits)[k] == t[k]
        }),
{
    slots::lemma_first(t, slots::free::<JobView>());
    let p = t[parent.0 as int]->0;
    assert(node_wf(t, parent.0 as int));
    slots::lemma_first(p.children, slots::free::<JobId>());
}

/// A kill reaches every child of every job it reaches, and beside the job it
/// starts at only children of jobs it reaches; that job is last.
pub proof fn law_a_kill_reaches_every_child(t: JobsView, i: int, x: int, k: int)
    requires
        jobs_wf(t),
        0 <= i < MAX_JOBS,
        t[i] is Some,
        0 <= x < MAX_JOBS,
        post_order(t, i).contains(JobId(x as usize)),
        0 <= k < MAX_CHILDREN_PER_JOB,
    ensures
        t[x] is Some,
        t[x]->0.children[k] matches Some(c) ==> post_order(t, i).contains(c),
        x != i ==> (t[x]->0.parent matches Some(p) && post_order(t, i).contains(p)),
        post_order(t, i).last() == JobId(i as usize),
{
    law_kill_order_is_the_subtree(t, i);
    assert(descends(t, x, i));
    law_limits_only_tighten(t, x, i);
    assert(node_wf(t, x));
    if let Some(c) = t[x]->0.children[k] {
        assert(t[x]->0.children.contains(Some(JobId(c.0))));
        assert(index_of(t[c.0 as int]->0.parent) == x);
        assert(linked(t, c.0 as int));
        assert(descends(t, c.0 as int, i));
        assert(post_order(t, i).contains(JobId(c.0 as int as usize)));
    }
    if x != i {
        let p = t[x]->0.parent->0;
        assert(descends(t, p.0 as int, i));
        assert(post_order(t, i).contains(JobId(p.0 as int as usize)));
    }
}

/// Killing marks the jobs that are killed, and changes nothing else of them or of
/// any other.
pub proof fn law_killing_marks_the_killed(t: JobsView, killed: Seq<JobId>, i: int)
    requires
        0 <= i < t.len(),
        t.len() <= usize::MAX,
    ensures
        marked(t, killed).len() == t.len(),
        t[i] is None ==> marked(t, killed)[i] is None,
        t[i] matches Some(j) ==> (marked(t, killed)[i] matches Some(m) && {
            &&& killed.contains(JobId(i as usize)) ==> m.killed
            &&& !killed.contains(JobId(i as usize)) ==> m == j
            &&& m.members == j.members && m.children == j.children && m.limits == j.limits
            &&& m.object == j.object && m.parent == j.parent
        }),
{
}

/// A job is found at its place, a place is free exactly when no job has it, and a
/// job's population is how many members it has.
pub proof fn law_a_job_is_a_place_in_the_table(t: JobsView, id: JobId, j: JobView, m: Member, k: int)
    requires
        jobs_wf(t),
    ensures
        id.0 < MAX_JOBS ==> job_at(t, id) == t[id.0 as int],
        id.0 >= MAX_JOBS ==> job_at(t, id) is None,
        0 <= job_vacancy(t) <= MAX_JOBS,
        job_vacancy(t) < MAX_JOBS ==> t[job_vacancy(t)] is None,
        job_vacancy(t) == MAX_JOBS && 0 <= k < MAX_JOBS ==> t[k] is Some,
        0 <= j.member_vacancy() <= j.members.len(),
        j.member_vacancy() < j.members.len() ==> {
            &&& j.members[j.member_vacancy()] is None
            &&& (JobView { members: j.members.update(j.member_vacancy(), Some(m)), ..j }).population()
                == j.population() + 1
        },
        j.population() == 0 <==> forall|i: int|
            0 <= i < j.members.len() ==> #[trigger] j.members[i] is None,
{
    let free = slots::free::<JobView>();
    slots::lemma_first(t, free);
    if job_vacancy(t) == MAX_JOBS && 0 <= k < MAX_JOBS {
        assert(!free(t[k]));
    }
    slots::lemma_first(j.members, slots::free::<Member>());
    let used = slots::used::<Member>();
    if j.member_vacancy() < j.members.len() {
        slots::lemma_count_update(j.members, used, j.member_vacancy(), Some(m));
    }
    if j.population() == 0 {
        assert forall|i: int| 0 <= i < j.members.len() implies #[trigger] j.members[i] is None by {
            if j.members[i] is Some {
                slots::lemma_count_positive(j.members, used, i);
            }
        }
    } else if forall|i: int| 0 <= i < j.members.len() ==> #[trigger] j.members[i] is None {
        slots::lemma_count_zero(j.members, used);
    }
}

} // verus!
