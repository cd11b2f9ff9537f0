//! The process lifecycle: create an empty process, populate its address space,
//! start it, and wait for it.
//!
//! Arguments arrive as what reading them from the caller's memory came to, so a
//! failed read is answered where it belongs among the other refusals. Waiting
//! is split where the caller leaves the processor.
use vstd::prelude::*;
use crate::config::{FRAME_SIZE, MAX_CPUS, MAX_STARTUP_MESSAGE, MAX_THREADS};
use crate::error::KError;
use crate::exec::grants::{release_steps, ReleaseView};
use crate::exec::laws::lemma_woken_all_readies;
use crate::exec::ports::lemma_woken_all_frame;
use crate::exec::{ExecView, Executive, Posted, Residence};
use crate::frame::{
    asked, charged, gained, lemma_asked, lemma_charged, lemma_charged_nothing, FrameOp, FrameSource,
};
use crate::handle::{Handle, HandleTableView};
use crate::hardware::NoDma;
use crate::memory::{held_by, listed};
use crate::object::{ObjectId, ObjectTable, ObjectTableView, ObjectType, MAX_OBJECTS};
use crate::process::{
    called, chosen, owner_slot, owning, process_called, process_owning, process_slot,
    process_vacancy, process_view, Process, ProcessState, ProcessTable, ProcessView, MAX_PROCESSES,
    MAX_PROCESS_WAITERS,
};
use crate::rights::{subset, Rights};
use crate::sched::{live_as, without, SchedView, Switch};
use crate::slots;
use crate::space::{failure, user_rw, PageFlags, QueuedSpace, Space, SpaceOp};
use crate::thread::{Thread, ThreadId, ThreadState};

verus! {

/// A process table as its view shows it.
pub type ProcessesView<S> = Seq<Option<ProcessView<S>>>;

/// What a thread about to run in a new process needs.
#[derive(Clone, Copy, PartialEq, Eq, Debug, Structural)]
pub struct SpawnRequest {
    pub entry: u64,
    pub arg: u64,
    /// Where the user stack starts; where to put it is the caller's choice.
    pub stack: u64,
    pub user_pages: u64,
    pub kernel_stack: u64,
    pub kernel_pages: u64,
    pub process: ObjectId,
}

/// Something a port was asked to lend or take back.
#[derive(Clone, Copy, PartialEq, Eq, Debug, Structural)]
pub enum LoaderOp {
    /// A fresh address space.
    NewSpace { failed: Option<KError> },
    /// A kernel-stack window, and which one it was.
    TakeStack(Option<u64>),
    /// A kernel-stack window given back.
    ReleaseStack(u64),
    /// A thread made ready to enter a process: which, or why not.
    Spawn { request: SpawnRequest, made: Option<Thread>, failed: Option<KError> },
    /// The pages of a kernel stack unmapped.
    ReclaimStack { va: u64, len: u64, ok: bool },
}

/// What asking for the thread of `request` is remembered as.
pub open spec fn spawn_of(request: SpawnRequest, r: Result<Thread, KError>) -> LoaderOp {
    LoaderOp::Spawn {
        request,
        made: match r {
            Ok(t) => Some(t),
            Err(_) => None,
        },
        failed: failure(r),
    }
}

/// What a port lends the loader: the things only it can make.
pub trait LoaderSupport<S: Space> {
    /// Everything asked so far.
    spec fn trace(&self) -> Seq<LoaderOp>;

    /// Everything asked of frame sources so far for the port itself: for address
    /// spaces it made and kernel stacks it unmapped.
    spec fn frames(&self) -> Seq<FrameOp>;

    /// Pages of user stack a child gets.
    spec fn user_pages(&self) -> u64;

    /// Pages of kernel stack a child thread gets.
    spec fn kernel_pages(&self) -> u64;

    /// A fresh, empty user address space.
    fn new_user_space<F: FrameSource>(&mut self, alloc: &mut F) -> (r: Result<S, KError>)
        requires
            old(alloc).inv(),
        ensures
            final(alloc).inv(),
            final(self).trace() == old(self).trace().push(LoaderOp::NewSpace { failed: failure(r) }),
            final(self).user_pages() == old(self).user_pages(),
            final(self).kernel_pages() == old(self).kernel_pages(),
            charged(old(self).frames(), final(self).frames(), *old(alloc), *final(alloc)),
            r matches Ok(s) ==> s.trace() == Seq::<SpaceOp>::empty() && s.frames() == Seq::<
                FrameOp,
            >::empty(),
    ;

    /// Takes a kernel-stack window, or `None` when every one is in use.
    fn take_kernel_stack(&mut self) -> (r: Option<u64>)
        ensures
            final(self).trace() == old(self).trace().push(LoaderOp::TakeStack(r)),
            final(self).frames() == old(self).frames(),
            final(self).user_pages() == old(self).user_pages(),
            final(self).kernel_pages() == old(self).kernel_pages(),
    ;

    /// Gives a window back.
    fn release_kernel_stack(&mut self, window: u64)
        ensures
            final(self).trace() == old(self).trace().push(LoaderOp::ReleaseStack(window)),
            final(self).frames() == old(self).frames(),
            final(self).user_pages() == old(self).user_pages(),
            final(self).kernel_pages() == old(self).kernel_pages(),
    ;

    /// Pages of user stack a child gets.
    fn user_stack_pages(&self) -> (n: u64)
        ensures
            n == self.user_pages(),
    ;

    /// Pages of kernel stack a child thread gets.
    fn kernel_stack_pages(&self) -> (n: u64)
        ensures
            n == self.kernel_pages(),
    ;

    /// Maps both stacks of a thread and makes it ready to enter `space`, to whose
    /// account the frames of both go.
    fn spawn_user<F: FrameSource>(
        &mut self,
        request: SpawnRequest,
        space: &mut S,
        alloc: &mut F,
    ) -> (r: Result<Thread, KError>)
        requires
            old(alloc).inv(),
        ensures
            final(alloc).inv(),
            final(self).trace() == old(self).trace().push(spawn_of(request, r)),
            final(self).frames() == old(self).frames(),
            charged(old(space).frames(), final(space).frames(), *old(alloc), *final(alloc)),
            old(space).trace().is_prefix_of(final(space).trace()),
            r matches Ok(t) ==> t.process == Some(request.process) && t.kernel_stack_base
                == request.kernel_stack,
    ;

    /// Unmaps a kernel stack and drops its references.
    fn reclaim_kernel_range<F: FrameSource>(&mut self, va: u64, len: u64, alloc: &mut F) -> (r:
        Result<(), KError>)
        requires
            old(alloc).inv(),
        ensures
            final(alloc).inv(),
            final(self).trace() == old(self).trace().push(
                LoaderOp::ReclaimStack { va, len, ok: r is Ok },
            ),
            charged(old(self).frames(), final(self).frames(), *old(alloc), *final(alloc)),
    ;
}

/// A port's support whose requests are queued for the processor that owns the
/// page tables: kernel-stack windows come from a list.
pub struct QueuedSupport {
    queue: Vec<LoaderOp>,
    windows: Vec<u64>,
    next_thread: u64,
    user_pages: u64,
    kernel_pages: u64,
}

impl QueuedSupport {
    /// Support that lends the windows of `windows`, last one first, and numbers
    /// its threads from `first_thread` on.
    pub fn new(windows: Vec<u64>, first_thread: u64, user_pages: u64, kernel_pages: u64) -> (s:
        QueuedSupport)
        ensures
            s.trace() == Seq::<LoaderOp>::empty(),
            s.frames() == Seq::<FrameOp>::empty(),
            s.windows() == windows@,
            s.next_thread() == first_thread,
            s.user_pages() == user_pages,
            s.kernel_pages() == kernel_pages,
    {
        QueuedSupport {
            queue: Vec::new(),
            windows,
            next_thread: first_thread,
            user_pages,
            kernel_pages,
        }
    }

    /// The windows nobody holds; the last is lent next.
    pub closed spec fn windows(&self) -> Seq<u64> {
        self.windows@
    }

    /// The number of the next thread.
    pub closed spec fn next_thread(&self) -> u64 {
        self.next_thread
    }

    /// The requests not applied yet, oldest first.
    pub fn pending(&self) -> (ops: &[LoaderOp])
        ensures
            ops@ == self.trace(),
    {
        self.queue.as_slice()
    }
}

/// Whether the stacks `request` names lie in the address space and there is a
/// number left for its thread.
pub open spec fn spawnable(request: SpawnRequest, next_thread: u64) -> bool {
    &&& request.user_pages * FRAME_SIZE <= u64::MAX
    &&& request.kernel_stack + request.kernel_pages * FRAME_SIZE <= u64::MAX
    &&& next_thread < u64::MAX
}

/// The mapping of the user stack of `request`.
pub open spec fn stack_mapping(request: SpawnRequest, failed: Option<KError>) -> SpaceOp {
    SpaceOp::MapFresh {
        va: request.stack,
        len: (request.user_pages * FRAME_SIZE) as u64,
        flags: user_rw(),
        failed,
    }
}

impl LoaderSupport<QueuedSpace> for QueuedSupport {
    closed spec fn trace(&self) -> Seq<LoaderOp> {
        self.queue@
    }

    /// A queued request asks when it is applied.
    open spec fn frames(&self) -> Seq<FrameOp> {
        Seq::empty()
    }

    closed spec fn user_pages(&self) -> u64 {
        self.user_pages
    }

    closed spec fn kernel_pages(&self) -> u64 {
        self.kernel_pages
    }

    fn new_user_space<F: FrameSource>(&mut self, _alloc: &mut F) -> (r: Result<
        QueuedSpace,
        KError,
    >)
        ensures
            r is Ok,
            final(self).windows() == old(self).windows(),
            final(self).next_thread() == old(self).next_thread(),
    {
        proof {
            lemma_charged_nothing(Seq::empty(), *_alloc);
        }
        self.queue.push(LoaderOp::NewSpace { failed: None });
        Ok(QueuedSpace::new())
    }

    fn take_kernel_stack(&mut self) -> (r: Option<u64>)
        ensures
            final(self).next_thread() == old(self).next_thread(),
            if old(self).windows().len() == 0 {
                r is None && final(self).windows() == old(self).windows()
            } else {
                r == Some(old(self).windows().last()) && final(self).windows() == old(
                    self,
                ).windows().drop_last()
            },
    {
        let window: Option<u64> = self.windows.pop();
        self.queue.push(LoaderOp::TakeStack(window));
        window
    }

    fn release_kernel_stack(&mut self, window: u64)
        ensures
            final(self).windows() == old(self).windows().push(window),
            final(self).next_thread() == old(self).next_thread(),
    {
        self.windows.push(window);
        self.queue.push(LoaderOp::ReleaseStack(window));
    }

    fn user_stack_pages(&self) -> (n: u64) {
        self.user_pages
    }

    fn kernel_stack_pages(&self) -> (n: u64) {
        self.kernel_pages
    }

    fn spawn_user<F: FrameSource>(
        &mut self,
        request: SpawnRequest,
        space: &mut QueuedSpace,
        alloc: &mut F,
    ) -> (r: Result<Thread, KError>)
        ensures
            final(self).windows() == old(self).windows(),
            spawnable(request, old(self).next_thread()) ==> final(space).trace() == old(
                space,
            ).trace().push(stack_mapping(request, None)),
            !spawnable(request, old(self).next_thread()) ==> final(space).trace() == old(
                space,
            ).trace(),
            if spawnable(request, old(self).next_thread()) {
                &&& r matches Ok(t)
                &&& t.id == ThreadId(old(self).next_thread())
                &&& t.state == ThreadState::Ready
                &&& t.kernel_stack_top == request.kernel_stack + request.kernel_pages * FRAME_SIZE
                &&& final(self).next_thread() == old(self).next_thread() + 1
            } else {
                &&& r == Err::<Thread, _>(KError::InvalidMapping)
                &&& final(self).next_thread() == old(self).next_thread()
            },
    {
        let fits: bool = request.user_pages <= u64::MAX / FRAME_SIZE && request.kernel_pages
            <= u64::MAX / FRAME_SIZE && request.kernel_stack <= u64::MAX - request.kernel_pages
            * FRAME_SIZE && self.next_thread < u64::MAX;
        if !fits {
            proof {
                lemma_charged_nothing(space.frames(), *alloc);
            }
            self.queue.push(
                LoaderOp::Spawn { request, made: None, failed: Some(KError::InvalidMapping) },
            );
            return Err(KError::InvalidMapping);
        }
        let flags = PageFlags { read: true, write: true, execute: false, user: true };
        if let Err(e) = space.map_anonymous(
            request.stack,
            request.user_pages * FRAME_SIZE,
            flags,
            alloc,
        ) {
            self.queue.push(LoaderOp::Spawn { request, made: None, failed: Some(e) });
            return Err(e);
        }
        let id: u64 = self.next_thread;
        self.next_thread = id + 1;
        let thread = Thread {
            id: ThreadId(id),
            state: ThreadState::Ready,
            priority: 0,
            correlation: 0,
            process: Some(request.process),
            recv_deadline: None,
            kernel_stack_base: request.kernel_stack,
            kernel_stack_top: request.kernel_stack + request.kernel_pages * FRAME_SIZE,
            space_root: None,
        };
        self.queue.push(LoaderOp::Spawn { request, made: Some(thread), failed: None });
        Ok(thread)
    }

    fn reclaim_kernel_range<F: FrameSource>(&mut self, va: u64, len: u64, _alloc: &mut F) -> (r:
        Result<(), KError>) {
        proof {
            lemma_charged_nothing(Seq::empty(), *_alloc);
        }
        self.queue.push(LoaderOp::ReclaimStack { va, len, ok: true });
        Ok(())
    }
}

/// What the loader works with: what the port lends, and the table processes are
/// created in.
pub struct LoaderEnv<L> {
    pub support: L,
    pub objects: ObjectTable,
}

/// Whether `p` holds `handle` with `right`: the object it names, or why not.
pub open spec fn authority<S>(p: ProcessView<S>, handle: Handle, right: u64) -> Result<
    ObjectId,
    KError,
> {
    match p.handles.find(handle) {
        None => Err(KError::BadHandle),
        Some(e) => if subset(right, e.rights@) {
            Ok(e.object)
        } else {
            Err(KError::AccessDenied)
        },
    }
}

/// What the process of `caller` may reach through the handle `args` names,
/// which is what reading the arguments came to.
pub open spec fn claim<S>(
    t: ProcessesView<S>,
    caller: ThreadId,
    args: Result<Handle, KError>,
    right: u64,
) -> Result<ObjectId, KError> {
    match process_owning(t, caller) {
        None => Err(KError::AccessDenied),
        Some(p) => match args {
            Err(e) => Err(e),
            Ok(handle) => authority(p, handle, right),
        },
    }
}

fn claimed<S: Space>(
    processes: &ProcessTable<S>,
    caller: ThreadId,
    args: Result<Handle, KError>,
    right: u64,
) -> (r: Result<ObjectId, KError>)
    requires
        processes.wf(),
    ensures
        r == claim(processes@, caller, args, right),
{
    match processes.owner_of_thread(caller) {
        None => Err(KError::AccessDenied),
        Some(p) => match args {
            Err(e) => Err(e),
            Ok(handle) => match p.handles().lookup(handle) {
                Err(e) => Err(e),
                Ok((object, rights)) => if rights.contains(Rights::from_bits(right)) {
                    Ok(object)
                } else {
                    Err(KError::AccessDenied)
                },
            },
        },
    }
}

/// What creating a process comes to once the caller's authority is established
/// and `made` is the address space the port lent.
pub open spec fn create_step<S: Space>(
    objects: ObjectTableView,
    t: ProcessesView<S>,
    caller: ThreadId,
    made: Result<S, KError>,
    after: ObjectTableView,
    u: ProcessesView<S>,
    r: Result<Handle, KError>,
) -> bool {
    match made {
        Err(e) => r == Err::<Handle, _>(e) && after == objects && u == t,
        Ok(space) => if objects.vacancy() == MAX_OBJECTS {
            r == Err::<Handle, _>(KError::OutOfMemory) && after == objects && u == t
        } else if process_vacancy(t) == MAX_PROCESSES {
            &&& r == Err::<Handle, _>(KError::OutOfMemory)
            &&& after == objects.created(ObjectType::Process)
            &&& u == t
        } else {
            let child = objects.next_id();
            let t1 = t.update(process_vacancy(t), Some(ProcessView::fresh(child, space)));
            let p = process_owning(t, caller)->0;
            &&& after == objects.created(ObjectType::Process)
            &&& if p.handles.full() {
                r == Err::<Handle, _>(KError::OutOfMemory) && u == t1
            } else {
                &&& r == Ok::<_, KError>(p.handles.next_handle())
                &&& u == t1.update(
                    owner_slot(t, caller),
                    Some(
                        ProcessView {
                            handles: p.handles.inserted(
                                child,
                                Rights(Rights::READ | Rights::WRITE | Rights::MAP),
                            ),
                            ..p
                        },
                    ),
                )
            }
        },
    }
}

/// An empty, not-yet-started process under a job the caller holds with
/// `create-process`. `args` is what reading the job handle came to. The caller
/// gets the authority to populate and start what it made.
pub fn create<S: Space, L: LoaderSupport<S>, F: FrameSource>(
    env: &mut LoaderEnv<L>,
    processes: &mut ProcessTable<S>,
    alloc: &mut F,
    caller: ThreadId,
    args: Result<Handle, KError>,
) -> (r: Result<Handle, KError>)
    requires
        old(env).objects.wf(),
        old(processes).wf(),
        old(alloc).inv(),
    ensures
        final(env).objects.wf(),
        final(processes).wf(),
        final(alloc).inv(),
        match claim(old(processes)@, caller, args, Rights::CREATE_PROCESS) {
            Err(e) => {
                &&& r == Err::<Handle, _>(e)
                &&& final(env).objects@ == old(env).objects@
                &&& final(env).support == old(env).support
                &&& final(processes)@ == old(processes)@
                &&& *final(alloc) == *old(alloc)
                &&& final(alloc).trace() == old(alloc).trace()
            },
            Ok(_) => exists|made: Result<S, KError>|
                {
                    &&& #[trigger] create_step(
                        old(env).objects@,
                        old(processes)@,
                        caller,
                        made,
                        final(env).objects@,
                        final(processes)@,
                        r,
                    )
                    &&& final(env).support.trace() == old(env).support.trace().push(
                        LoaderOp::NewSpace { failed: failure(made) },
                    )
                    &&& charged(
                        old(env).support.frames(),
                        final(env).support.frames(),
                        *old(alloc),
                        *final(alloc),
                    )
                    &&& made matches Ok(s) ==> s.trace() == Seq::<SpaceOp>::empty() && s.frames()
                        == Seq::<FrameOp>::empty()
                },
        },
{
    let ghost t = processes@;
    let ghost objects = env.objects@;
    if let Err(e) = claimed(processes, caller, args, Rights::CREATE_PROCESS) {
        return Err(e);
    }
    let ghost p = process_owning(t, caller)->0;
    proof {
        slots::lemma_first(t, owning::<S>(caller));
        slots::lemma_first(t, slots::free::<ProcessView<S>>());
        slots::lemma_first(objects.slots, slots::free::<crate::object::ObjectEntry>());
    }
    let space: S = match env.support.new_user_space(alloc) {
        Err(e) => {
            assert(create_step(
                objects,
                t,
                caller,
                Err::<S, _>(e),
                env.objects@,
                processes@,
                Err::<Handle, _>(e),
            ));
            return Err(e);
        },
        Ok(s) => s,
    };
    let ghost made: Result<S, KError> = Ok(space);
    let child: ObjectId = match env.objects.create(ObjectType::Process) {
        Err(e) => {
            assert(create_step(
                objects,
                t,
                caller,
                made,
                env.objects@,
                processes@,
                Err::<Handle, _>(e),
            ));
            return Err(e);
        },
        Ok(id) => id,
    };
    if processes.insert(Process::new(child, space)).is_err() {
        assert(create_step(
            objects,
            t,
            caller,
            made,
            env.objects@,
            processes@,
            Err::<Handle, _>(KError::OutOfMemory),
        ));
        return Err(KError::OutOfMemory);
    }
    let ghost t1 = processes@;
    proof {
        let at = owner_slot(t, caller);
        let fresh = ProcessView::fresh(child, space);
        assert(!fresh.owns(caller)) by {
            if fresh.owns(caller) {
                let k = choose|k: int| 0 <= k < fresh.threads.len() && fresh.threads[k] == Some(
                    caller,
                );
            }
        }
        assert(at != process_vacancy(t));
        slots::lemma_first_is(t1, owning::<S>(caller), at);
    }
    let r: Result<Handle, KError> = match processes.process_of_thread(caller) {
        None => Err(KError::AccessDenied),
        Some(parent) => parent.handles_mut().install(
            child,
            Rights::from_bits(Rights::READ | Rights::WRITE | Rights::MAP),
        ),
    };
    proof {
        if r is Err {
            assert(processes@ =~= t1);
        }
        assert(create_step(objects, t, caller, made, env.objects@, processes@, r));
    }
    r
}

/// What a caller asks to have placed in another process.
#[derive(Clone, Copy, PartialEq, Eq, Debug, Structural)]
pub struct MapRequest {
    pub process: Handle,
    pub vaddr: u64,
    pub length: u64,
    pub rights: Rights,
    /// Where the bytes are in the caller, or 0 for zero-filled pages.
    pub src: u64,
}

/// The flags a rights mask asks for: readable user pages, writable and
/// executable as it says.
pub open spec fn flags_for(rights: u64) -> PageFlags {
    PageFlags {
        read: true,
        write: subset(Rights::WRITE, rights),
        execute: subset(Rights::EXECUTE, rights),
        user: true,
    }
}

/// The flags a rights mask asks for.
fn rights_to_flags(rights: Rights) -> (f: PageFlags)
    ensures
        f == flags_for(rights@),
{
    PageFlags {
        read: true,
        write: rights.contains(Rights::from_bits(Rights::WRITE)),
        execute: rights.contains(Rights::from_bits(Rights::EXECUTE)),
        user: true,
    }
}

/// `length` rounded up to whole pages.
pub open spec fn whole_pages(length: u64) -> int {
    (length as int + FRAME_SIZE as int - 1) / FRAME_SIZE as int * FRAME_SIZE as int
}

/// Why a request to place bytes is refused before anything is mapped, if it is.
/// `source` is what validating the caller's own range came to, and user
/// addresses end at `limit`.
pub open spec fn map_refusal<S>(
    t: ProcessesView<S>,
    caller: ThreadId,
    args: Result<MapRequest, KError>,
    source: Result<(), KError>,
    limit: u64,
) -> Option<KError> {
    match process_owning(t, caller) {
        None => Some(KError::AccessDenied),
        Some(p) => match args {
            Err(e) => Some(e),
            Ok(q) => if q.length == 0 {
                Some(KError::InvalidMapping)
            } else if flags_for(q.rights@).wx() {
                Some(KError::WXViolation)
            } else if q.src != 0 && source is Err {
                Some(source->Err_0)
            } else {
                match authority(p, q.process, Rights::MAP) {
                    Err(e) => Some(e),
                    Ok(child) => if q.vaddr + whole_pages(q.length) > limit {
                        Some(KError::InvalidMapping)
                    } else if process_called(t, child) is None {
                        Some(KError::BadHandle)
                    } else {
                        None
                    },
                }
            },
        },
    }
}

/// What the child's address space is asked: pages mapped writable, then the
/// bytes copied in if there are any, then the protection requested. Each step
/// is taken only if the one before it worked.
pub open spec fn placing(
    q: MapRequest,
    mapped: Option<KError>,
    copied: Option<KError>,
    sealed: Option<KError>,
) -> Seq<SpaceOp> {
    let len = whole_pages(q.length) as u64;
    let map = SpaceOp::MapFresh { va: q.vaddr, len, flags: user_rw(), failed: mapped };
    let copy = SpaceOp::CopyIn { va: q.vaddr, src: q.src, len: q.length, failed: copied };
    let seal = SpaceOp::Protect {
        va: q.vaddr,
        len,
        flags: flags_for(q.rights@),
        failed: sealed,
    };
    if mapped is Some {
        seq![map]
    } else if q.src == 0 {
        seq![map, seal]
    } else if copied is Some {
        seq![map, copy]
    } else {
        seq![map, copy, seal]
    }
}

/// What placing bytes in `child` comes to.
pub open spec fn placed<S: Space>(
    t: ProcessesView<S>,
    u: ProcessesView<S>,
    child: ObjectId,
    q: MapRequest,
    mapped: Option<KError>,
    copied: Option<KError>,
    sealed: Option<KError>,
    r: Result<u64, KError>,
) -> bool {
    let p = process_called(t, child)->0;
    let at = process_slot(t, child);
    &&& u[at] matches Some(n) && u == t.update(at, Some(ProcessView { space: n.space, ..p }))
        && n.space.trace() == p.space.trace() + placing(q, mapped, copied, sealed)
    &&& r == if mapped is Some {
        Err::<u64, KError>(mapped->0)
    } else if q.src != 0 && copied is Some {
        Err(copied->0)
    } else if sealed is Some {
        Err(sealed->0)
    } else {
        Ok(q.length)
    }
}

/// What was asked of a frame source between `a` and `b` went to the account of
/// `child`'s address space, and is all that went there.
pub open spec fn account_charged<S: Space, F: FrameSource>(
    t: ProcessesView<S>,
    u: ProcessesView<S>,
    child: ObjectId,
    a: F,
    b: F,
) -> bool {
    charged(
        process_called(t, child)->0.space.frames(),
        u[process_slot(t, child)]->0.space.frames(),
        a,
        b,
    )
}

/// Whether `op` maps or protects pages writable and executable at once.
pub open spec fn asks_wx(op: SpaceOp) -> bool {
    match op {
        SpaceOp::MapFresh { va, len, flags, failed } => flags.wx(),
        SpaceOp::Protect { va, len, flags, failed } => flags.wx(),
        _ => false,
    }
}

/// Nothing placed is ever writable and executable at once, at no step of the
/// way.
pub proof fn law_never_writable_and_executable<S>(
    t: ProcessesView<S>,
    caller: ThreadId,
    q: MapRequest,
    source: Result<(), KError>,
    limit: u64,
    mapped: Option<KError>,
    copied: Option<KError>,
    sealed: Option<KError>,
    i: int,
)
    requires
        map_refusal(t, caller, Ok::<_, KError>(q), source, limit) is None,
        0 <= i < placing(q, mapped, copied, sealed).len(),
    ensures
        !asks_wx(placing(q, mapped, copied, sealed)[i]),
{
}

/// Places bytes in a created process's address space, and returns how many.
/// The pages are mapped writable, filled, and then protected as requested, so
/// they are never writable and executable at once. `args` is what reading the
/// request came to, `source` what validating the caller's own range came to,
/// and user addresses end at `limit`.
pub fn address_space_map<S: Space, F: FrameSource>(
    processes: &mut ProcessTable<S>,
    alloc: &mut F,
    caller: ThreadId,
    args: Result<MapRequest, KError>,
    source: Result<(), KError>,
    limit: u64,
) -> (r: Result<u64, KError>)
    requires
        old(processes).wf(),
        old(alloc).inv(),
    ensures
        final(processes).wf(),
        final(alloc).inv(),
        match map_refusal(old(processes)@, caller, args, source, limit) {
            Some(e) => {
                &&& r == Err::<u64, _>(e)
                &&& final(processes)@ == old(processes)@
                &&& *final(alloc) == *old(alloc)
                &&& final(alloc).trace() == old(alloc).trace()
            },
            None => {
                let q = args->Ok_0;
                let p = process_owning(old(processes)@, caller)->0;
                let child = authority(p, q.process, Rights::MAP)->Ok_0;
                account_charged(old(processes)@, final(processes)@, child, *old(alloc), *final(alloc))
                    && exists|mapped: Option<KError>, copied: Option<KError>, sealed: Option<KError>| #[trigger]
                    placed(
                        old(processes)@,
                        final(processes)@,
                        child,
                        q,
                        mapped,
                        copied,
                        sealed,
                        r,
                    )
            },
        },
{
    let ghost t = processes@;
    let q: MapRequest = match args {
        Err(e) => {
            return if processes.owner_of_thread(caller).is_none() {
                Err(KError::AccessDenied)
            } else {
                Err(e)
            };
        },
        Ok(q) => q,
    };
    if processes.owner_of_thread(caller).is_none() {
        return Err(KError::AccessDenied);
    }
    if q.length == 0 {
        return Err(KError::InvalidMapping);
    }
    let flags: PageFlags = rights_to_flags(q.rights);
    if flags.is_wx() {
        return Err(KError::WXViolation);
    }
    if q.src != 0 {
        if let Err(e) = source {
            return Err(e);
        }
    }
    let child: ObjectId = match claimed(processes, caller, Ok(q.process), Rights::MAP) {
        Err(e) => {
            return Err(e);
        },
        Ok(object) => object,
    };
    let whole: u128 = (q.length as u128 + FRAME_SIZE as u128 - 1) / FRAME_SIZE as u128
        * FRAME_SIZE as u128;
    assert(whole == whole_pages(q.length));
    if q.vaddr as u128 + whole > limit as u128 {
        return Err(KError::InvalidMapping);
    }
    let len: u64 = whole as u64;
    let ghost at = process_slot(t, child);
    proof {
        slots::lemma_first(t, called::<S>(child));
    }
    let result: Result<u64, KError> = match processes.process_of_id(child) {
        None => {
            return Err(KError::BadHandle);
        },
        Some(p) => {
            let ghost before = (*p)@.space.trace();
            let rw = PageFlags { read: true, write: true, execute: false, user: true };
            let space = p.space_mut();
            match space.map_anonymous(q.vaddr, len, rw, alloc) {
                Err(e) => {
                    assert(space.trace() =~= before + placing(q, Some(e), None, None));
                    Err(e)
                },
                Ok(_) => {
                    let copied: Result<(), KError> = if q.src != 0 {
                        space.copy_in(q.vaddr, q.src, q.length)
                    } else {
                        Ok(())
                    };
                    match copied {
                        Err(e) => {
                            assert(space.trace() =~= before + placing(q, None, Some(e), None));
                            Err(e)
                        },
                        Ok(_) => match space.protect_range(q.vaddr, len, flags) {
                            Err(e) => {
                                assert(space.trace() =~= before + placing(q, None, None, Some(e)));
                                Err(e)
                            },
                            Ok(_) => {
                                assert(space.trace() =~= before + placing(q, None, None, None));
                                Ok(q.length)
                            },
                        },
                    }
                },
            }
        },
    };
    proof {
        let u = processes@;
        assert(u[at] is Some);
        assert(u =~= t.update(
            at,
            Some(ProcessView { space: u[at]->0.space, ..process_called(t, child)->0 }),
        ));
        let e = failure(result);
        assert(placed(t, u, child, q, None, None, None, result) || placed(
            t,
            u,
            child,
            q,
            None,
            None,
            e,
            result,
        ) || placed(t, u, child, q, None, e, None, result) || placed(
            t,
            u,
            child,
            q,
            e,
            None,
            None,
            result,
        ));
    }
    result
}

impl ExecView {
    /// Whether any of `ids` is still there to be made runnable at its turn.
    pub open spec fn any_woken(self, cpu: u32, ids: Seq<ThreadId>) -> bool
        decreases ids.len(),
    {
        if ids.len() == 0 {
            false
        } else {
            let before = ids.drop_last();
            self.any_woken(cpu, before) || self.woken_all(cpu, before).residence(cpu, ids.last())
                != Residence::Gone
        }
    }
}

/// Marks the process of `caller` exited with `code` and makes whoever waits for
/// it runnable, on whichever CPU. Answers whether anybody was. The caller leaves
/// the processor afterwards, so there is something to switch to.
pub fn notify_exit<S: Space>(
    exec: &mut Executive,
    processes: &mut ProcessTable<S>,
    cpu: u32,
    caller: ThreadId,
    code: i32,
) -> (woke: bool)
    requires
        old(exec).wf(),
        old(processes).wf(),
    ensures
        final(exec).wf(),
        final(processes).wf(),
        match process_owning(old(processes)@, caller) {
            None => {
                &&& !woke
                &&& final(exec)@ == old(exec)@
                &&& final(processes)@ == old(processes)@
            },
            Some(p) => {
                &&& final(processes)@ == old(processes)@.update(
                    owner_slot(old(processes)@, caller),
                    Some(
                        ProcessView {
                            state: ProcessState::Exited(code),
                            waiters: Seq::empty(),
                            ..p
                        },
                    ),
                )
                &&& final(exec)@ == old(exec)@.woken_all(cpu, p.waiters)
                &&& woke == old(exec)@.any_woken(cpu, p.waiters)
            },
        },
{
    let ghost v = exec@;
    let ghost t = processes@;
    let waiters: Vec<ThreadId> = match processes.process_of_thread(caller) {
        None => {
            return false;
        },
        Some(p) => {
            p.exit(code);
            p.take_waiters()
        },
    };
    let mut woke: bool = false;
    let mut i: usize = 0;
    assert(waiters@.take(0) =~= Seq::<ThreadId>::empty());
    while i < waiters.len()
        invariant
            exec.wf(),
            i <= waiters@.len(),
            exec@ == v.woken_all(cpu, waiters@.take(i as int)),
            woke == v.any_woken(cpu, waiters@.take(i as int)),
        decreases waiters@.len() - i,
    {
        let id: ThreadId = waiters[i];
        proof {
            assert(waiters@.take(i + 1).drop_last() =~= waiters@.take(i as int));
            assert(waiters@.take(i + 1).last() == id);
        }
        match exec.wake_thread(cpu, id) {
            Residence::Gone => {},
            _ => {
                woke = true;
            },
        }
        i += 1;
    }
    assert(waiters@.take(i as int) =~= waiters@);
    woke
}

/// What a caller asks to have started.
#[derive(Clone, Copy, PartialEq, Eq, Debug, Structural)]
pub struct StartRequest {
    pub process: Handle,
    pub entry: u64,
    pub arg: u64,
    pub stack: u64,
    /// A message for the child: where it is in the caller, how long it is, and
    /// where the child finds it. None when its length is 0.
    pub message_ptr: u64,
    pub message_len: u64,
    pub message_va: u64,
}

/// Why a request to start a process is refused outright, if it is. A process
/// that was started before is refused: a second thread would run on the same
/// stack.
pub open spec fn start_refusal<S>(
    t: ProcessesView<S>,
    caller: ThreadId,
    args: Result<StartRequest, KError>,
) -> Option<KError> {
    match process_owning(t, caller) {
        None => Some(KError::AccessDenied),
        Some(p) => match args {
            Err(e) => Some(e),
            Ok(q) => match authority(p, q.process, Rights::WRITE) {
                Err(e) => Some(e),
                Ok(child) => match process_called(t, child) {
                    None => Some(KError::BadHandle),
                    Some(c) => if c.state == ProcessState::Created {
                        None
                    } else {
                        Some(KError::AccessDenied)
                    },
                },
            },
        },
    }
}

/// Why a startup message is refused before anything is mapped, if it is.
/// `message` is what reading its bytes came to.
pub open spec fn message_refusal(q: StartRequest, message: Result<(), KError>) -> Option<KError> {
    if q.message_len == 0 {
        None
    } else if q.message_len > MAX_STARTUP_MESSAGE {
        Some(KError::InvalidMapping)
    } else if message is Err {
        Some(message->Err_0)
    } else {
        None
    }
}

/// What the child's address space is asked for a startup message: one readable
/// and writable page, and the bytes copied into it.
pub open spec fn delivering(
    q: StartRequest,
    mapped: Option<KError>,
    copied: Option<KError>,
) -> Seq<SpaceOp> {
    let map = SpaceOp::MapFresh {
        va: q.message_va,
        len: FRAME_SIZE,
        flags: user_rw(),
        failed: mapped,
    };
    let copy = SpaceOp::CopyIn {
        va: q.message_va,
        src: q.message_ptr,
        len: q.message_len,
        failed: copied,
    };
    if q.message_len == 0 {
        Seq::empty()
    } else if mapped is None {
        seq![map, copy]
    } else {
        seq![map]
    }
}

/// Copies a parent's startup message into a page mapped in the child.
fn deliver_startup_message<S: Space, F: FrameSource>(
    processes: &mut ProcessTable<S>,
    alloc: &mut F,
    child: ObjectId,
    q: StartRequest,
    message: Result<(), KError>,
) -> (r: Result<(), KError>)
    requires
        old(processes).wf(),
        old(alloc).inv(),
        q.message_len != 0,
        process_called(old(processes)@, child) is Some,
    ensures
        final(processes).wf(),
        final(alloc).inv(),
        match message_refusal(q, message) {
            Some(e) => {
                &&& r == Err::<(), _>(e)
                &&& final(processes)@ == old(processes)@
                &&& *final(alloc) == *old(alloc)
            },
            None => {
                &&& account_charged(
                    old(processes)@,
                    final(processes)@,
                    child,
                    *old(alloc),
                    *final(alloc),
                )
                &&& exists|mapped: Option<KError>, copied: Option<KError>| #[trigger]
                    delivered(old(processes)@, final(processes)@, child, q, mapped, copied, r)
            },
        },
{
    let ghost t = processes@;
    let ghost at = process_slot(t, child);
    if q.message_len > MAX_STARTUP_MESSAGE {
        return Err(KError::InvalidMapping);
    }
    if let Err(e) = message {
        return Err(e);
    }
    proof {
        slots::lemma_first(t, called::<S>(child));
    }
    match processes.process_of_id(child) {
        None => Err(KError::BadHandle),
        Some(p) => {
            let ghost before = (*p)@.space.trace();
            let rw = PageFlags { read: true, write: true, execute: false, user: true };
            let space = p.space_mut();
            if let Err(e) = space.map_anonymous(q.message_va, FRAME_SIZE, rw, alloc) {
                proof {
                    assert(space.trace() =~= before + delivering(q, Some(e), None));
                    assert(delivered(t, processes@, child, q, Some(e), None, Err::<(), _>(e)));
                }
                return Err(e);
            }
            let copied = space.copy_in(q.message_va, q.message_ptr, q.message_len);
            proof {
                assert(space.trace() =~= before + delivering(q, None, failure(copied)));
                assert(delivered(t, processes@, child, q, None, failure(copied), copied));
            }
            copied
        },
    }
}

/// What delivering a startup message comes to.
pub open spec fn delivered<S: Space>(
    t: ProcessesView<S>,
    u: ProcessesView<S>,
    child: ObjectId,
    q: StartRequest,
    mapped: Option<KError>,
    copied: Option<KError>,
    r: Result<(), KError>,
) -> bool {
    let at = process_slot(t, child);
    let p = process_called(t, child)->0;
    &&& u[at] matches Some(n) && u == t.update(at, Some(ProcessView { space: n.space, ..p }))
        && n.space.trace() == p.space.trace() + delivering(q, mapped, copied)
    &&& failure(r) == if mapped is Some {
        mapped
    } else {
        copied
    }
}

/// What starting a process met on its way.
pub struct StartLog {
    /// What went wrong mapping the page of the startup message, and filling it.
    pub mapped: Option<KError>,
    pub copied: Option<KError>,
    /// The kernel-stack window that was taken, if one was free.
    pub window: Option<u64>,
    /// The thread that was made, or why not.
    pub thread: Result<Thread, KError>,
}

/// A scheduler with `thread` added and ready.
pub open spec fn joined(v: SchedView, thread: Thread, correlation: u64) -> SchedView {
    SchedView {
        threads: v.threads.update(
            v.vacancy(),
            Some(Thread { state: ThreadState::Ready, correlation, ..thread }),
        ),
        ready: v.ready.push(v.vacancy() as usize),
        ..v
    }
}

/// What a start works on.
#[verifier::reject_recursive_types(S)]
pub struct StartView<S> {
    pub state: ExecView,
    pub processes: ProcessesView<S>,
    pub trace: Seq<LoaderOp>,
}

/// What starting `child` comes to, given what was met on the way.
pub open spec fn started<S: Space>(
    a: StartView<S>,
    b: StartView<S>,
    cpu: u32,
    correlation: u64,
    child: ObjectId,
    q: StartRequest,
    message: Result<(), KError>,
    user_pages: u64,
    kernel_pages: u64,
    log: StartLog,
    r: Result<u64, KError>,
) -> bool {
    let at = process_slot(a.processes, child);
    let p = process_called(a.processes, child)->0;
    let n = b.processes[at]->0;
    let sched = a.state.sched(cpu);
    let sched_full = sched.vacancy() == MAX_THREADS || sched.ready.len() == MAX_THREADS;
    let seat = slots::first(p.threads, slots::free::<ThreadId>());
    let asked = p.space.trace() + delivering(q, log.mapped, log.copied);
    let took = a.trace.push(LoaderOp::TakeStack(log.window));
    let request = SpawnRequest {
        entry: q.entry,
        arg: q.arg,
        stack: q.stack,
        user_pages,
        kernel_pages,
        kernel_stack: log.window->0,
        process: child,
    };
    let spawned = took.push(spawn_of(request, log.thread));
    let released = spawned.push(LoaderOp::ReleaseStack(log.window->0));
    let untouched = b.processes == a.processes.update(
        at,
        Some(ProcessView { space: n.space, ..p }),
    );
    match message_refusal(q, message) {
        // The message is refused before anything is mapped.
        Some(e) => r == Err::<u64, _>(e) && b == a,
        None => if q.message_len != 0 && (log.mapped is Some || log.copied is Some) {
            // The message cannot be delivered.
            &&& r == Err::<u64, _>(
                if log.mapped is Some {
                    log.mapped->0
                } else {
                    log.copied->0
                },
            )
            &&& untouched && n.space.trace() == asked
            &&& b.state == a.state && b.trace == a.trace
        } else if log.window is None {
            // No kernel stack is free.
            &&& r == Err::<u64, _>(KError::OutOfMemory)
            &&& untouched && n.space.trace() == asked
            &&& b.state == a.state && b.trace == took
        } else if log.thread is Err {
            // The thread cannot be made: its window is given back.
            &&& r == Err::<u64, _>(log.thread->Err_0)
            &&& untouched && asked.is_prefix_of(n.space.trace())
            &&& b.state == a.state && b.trace == released
        } else {
            let thread = log.thread->Ok_0;
            &&& thread.process == Some(child) && thread.kernel_stack_base == log.window->0
            &&& asked.is_prefix_of(n.space.trace())
            &&& if sched_full {
                // The scheduler has no room: the window is given back.
                &&& r == Err::<u64, _>(KError::OutOfMemory)
                &&& untouched && b.state == a.state && b.trace == released
            } else if seat == p.threads.len() {
                // The process has no room for a thread: the window is given back.
                &&& r == Err::<u64, _>(KError::OutOfMemory)
                &&& untouched && b.trace == released
                &&& b.state == a.state.with_sched(cpu, joined(sched, thread, correlation))
            } else {
                &&& r == Ok::<_, KError>(0u64)
                &&& b.trace == spawned
                &&& b.state == a.state.with_sched(cpu, joined(sched, thread, correlation))
                &&& b.processes == a.processes.update(
                    at,
                    Some(
                        ProcessView {
                            space: n.space,
                            threads: p.threads.update(seat, Some(thread.id)),
                            state: ProcessState::Running,
                            ..p
                        },
                    ),
                )
            }
        },
    }
}

/// How many kernel-stack windows are lent out after `trace`.
pub open spec fn lent(trace: Seq<LoaderOp>) -> int
    decreases trace.len(),
{
    if trace.len() == 0 {
        0
    } else {
        lent(trace.drop_last()) + match trace.last() {
            LoaderOp::TakeStack(Some(w)) => 1int,
            LoaderOp::ReleaseStack(w) => -1int,
            _ => 0int,
        }
    }
}

/// A start that fails keeps no kernel-stack window, and one that succeeds keeps
/// exactly one.
pub proof fn law_start_keeps_one_window_or_none<S: Space>(
    a: StartView<S>,
    b: StartView<S>,
    cpu: u32,
    correlation: u64,
    child: ObjectId,
    q: StartRequest,
    message: Result<(), KError>,
    user_pages: u64,
    kernel_pages: u64,
    log: StartLog,
    r: Result<u64, KError>,
)
    requires
        started(
            a,
            b,
            cpu,
            correlation,
            child,
            q,
            message,
            user_pages,
            kernel_pages,
            log,
            r,
        ),
    ensures
        lent(b.trace) == lent(a.trace) + if r is Ok {
            1int
        } else {
            0int
        },
{
    let took = a.trace.push(LoaderOp::TakeStack(log.window));
    let request = SpawnRequest {
        entry: q.entry,
        arg: q.arg,
        stack: q.stack,
        user_pages,
        kernel_pages,
        kernel_stack: log.window->0,
        process: child,
    };
    let spawned = took.push(spawn_of(request, log.thread));
    let released = spawned.push(LoaderOp::ReleaseStack(log.window->0));
    assert(took.drop_last() =~= a.trace);
    assert(spawned.drop_last() =~= took);
    assert(released.drop_last() =~= spawned);
    assert(lent(took) == lent(a.trace) + if log.window is Some {
        1int
    } else {
        0int
    });
    assert(lent(spawned) == lent(took));
    assert(lent(released) == lent(spawned) - 1);
}

/// Makes a created, populated process runnable, and returns as soon as its
/// thread is queued. `args` is what reading the request came to and `message`
/// what reading the startup message came to.
pub fn start<S: Space, L: LoaderSupport<S>, F: FrameSource>(
    env: &mut LoaderEnv<L>,
    exec: &mut Executive,
    processes: &mut ProcessTable<S>,
    alloc: &mut F,
    cpu: u32,
    caller: ThreadId,
    args: Result<StartRequest, KError>,
    message: Result<(), KError>,
    correlation: u64,
) -> (r: Result<u64, KError>)
    requires
        old(exec).wf(),
        old(processes).wf(),
        old(alloc).inv(),
    ensures
        final(exec).wf(),
        final(processes).wf(),
        final(alloc).inv(),
        final(env).objects == old(env).objects,
        final(env).support.frames() == old(env).support.frames(),
        start_refusal(old(processes)@, caller, args) is Some || message_refusal(
            args->Ok_0,
            message,
        ) is Some ==> *final(alloc) == *old(alloc) && final(alloc).trace() == old(alloc).trace(),
        r is Ok ==> {
            &&& args matches Ok(q)
            &&& process_owning(old(processes)@, caller) matches Some(p)
            &&& p.handles.find(q.process) matches Some(h)
            &&& final(env).support.trace().len() > 0
            &&& final(env).support.trace().last() matches LoaderOp::Spawn { request, made, failed }
            &&& request.entry == q.entry
            &&& request.arg == q.arg
            &&& request.stack == q.stack
            &&& request.process == h.object
            &&& made is Some && failed is None
        },
        ({
            let a = StartView {
                state: old(exec)@,
                processes: old(processes)@,
                trace: old(env).support.trace(),
            };
            let b = StartView {
                state: final(exec)@,
                processes: final(processes)@,
                trace: final(env).support.trace(),
            };
            match start_refusal(old(processes)@, caller, args) {
                Some(e) => r == Err::<u64, _>(e) && b == a,
                None => {
                    let p = process_owning(old(processes)@, caller)->0;
                    let q = args->Ok_0;
                    let child = authority(p, q.process, Rights::WRITE)->Ok_0;
                    &&& account_charged(
                        old(processes)@,
                        final(processes)@,
                        child,
                        *old(alloc),
                        *final(alloc),
                    )
                    &&& exists|log: StartLog| #[trigger]
                        started(
                            a,
                            b,
                            cpu,
                            correlation,
                            child,
                            q,
                            message,
                            old(env).support.user_pages(),
                            old(env).support.kernel_pages(),
                            log,
                            r,
                        )
                },
            }
        }),
{
    let ghost a = StartView {
        state: exec@,
        processes: processes@,
        trace: env.support.trace(),
    };
    let ghost t = processes@;
    let ghost user = env.support.user_pages();
    let ghost kernel = env.support.kernel_pages();
    let q: StartRequest = match args {
        Err(e) => {
            return if processes.owner_of_thread(caller).is_none() {
                Err(KError::AccessDenied)
            } else {
                Err(e)
            };
        },
        Ok(q) => q,
    };
    let child: ObjectId = match claimed(processes, caller, Ok(q.process), Rights::WRITE) {
        Err(e) => {
            return Err(e);
        },
        Ok(object) => object,
    };
    proof {
        slots::lemma_first(t, called::<S>(child));
    }
    match processes.process_of_id(child) {
        None => {
            return Err(KError::BadHandle);
        },
        Some(p) => {
            if p.state() != ProcessState::Created {
                assert(processes@ =~= t);
                return Err(KError::AccessDenied);
            }
        },
    }
    assert(processes@ =~= t);
    let ghost at = process_slot(t, child);
    let ghost p = process_called(t, child)->0;
    proof {
        slots::lemma_first(p.threads, slots::free::<ThreadId>());
        assert(t.update(at, Some(p)) =~= t);
        lemma_charged_nothing(p.space.frames(), *alloc);
    }
    let ghost mut log = StartLog {
        mapped: None,
        copied: None,
        window: None,
        thread: Err(KError::BadHandle),
    };
    if q.message_len != 0 {
        let sent = deliver_startup_message(processes, alloc, child, q, message);
        proof {
            if message_refusal(q, message) is None {
                let (mapped, copied) = choose|mapped: Option<KError>, copied: Option<KError>| #[trigger]
                    delivered(t, processes@, child, q, mapped, copied, sent);
                log = StartLog { mapped, copied, ..log };
            }
        }
        if let Err(e) = sent {
            let ghost b = StartView {
                state: exec@,
                processes: processes@,
                trace: env.support.trace(),
            };
            assert(started(
                a,
                b,
                cpu,
                correlation,
                child,
                q,
                message,
                user,
                kernel,
                log,
                Err::<u64, _>(e),
            ));
            return Err(e);
        }
    } else {
        assert(p.space.trace() + delivering(q, None, None) =~= p.space.trace());
    }
    let ghost t1 = processes@;
    let ghost seen = *alloc;
    let ghost due = p.space.trace() + delivering(q, log.mapped, log.copied);
    proof {
        assert(t1[at] is Some && t1[at]->0.space.trace() == due);
        assert(t1 =~= t.update(at, Some(ProcessView { space: t1[at]->0.space, ..p })));
        slots::lemma_first_is(t1, called::<S>(child), at);
    }
    let window: Option<u64> = env.support.take_kernel_stack();
    proof {
        log = StartLog { window, ..log };
    }
    let kernel_stack: u64 = match window {
        None => {
            let ghost b = StartView {
                state: exec@,
                processes: processes@,
                trace: env.support.trace(),
            };
            assert(started(
                a,
                b,
                cpu,
                correlation,
                child,
                q,
                message,
                user,
                kernel,
                log,
                Err::<u64, _>(KError::OutOfMemory),
            ));
            return Err(KError::OutOfMemory);
        },
        Some(w) => w,
    };
    let request = SpawnRequest {
        entry: q.entry,
        arg: q.arg,
        stack: q.stack,
        user_pages: env.support.user_stack_pages(),
        kernel_pages: env.support.kernel_stack_pages(),
        kernel_stack,
        process: child,
    };
    let made: Result<Thread, KError> = match processes.process_of_id(child) {
        None => Err(KError::BadHandle),
        Some(c) => env.support.spawn_user(request, c.space_mut(), alloc),
    };
    let ghost t2 = processes@;
    proof {
        assert(charged(p.space.frames(), t1[at]->0.space.frames(), *old(alloc), seen));
        lemma_charged(
            p.space.frames(),
            t1[at]->0.space.frames(),
            t2[at]->0.space.frames(),
            *old(alloc),
            seen,
            *alloc,
        );
        assert(t2[at] is Some && due.is_prefix_of(t2[at]->0.space.trace()));
        assert(t2 =~= t.update(at, Some(ProcessView { space: t2[at]->0.space, ..p })));
        slots::lemma_first_is(t2, called::<S>(child), at);
    }
    let thread: Thread = match made {
        Err(e) => {
            env.support.release_kernel_stack(kernel_stack);
            proof {
                log = StartLog { thread: Err(e), ..log };
            }
            let ghost b = StartView {
                state: exec@,
                processes: processes@,
                trace: env.support.trace(),
            };
            assert(started(
                a,
                b,
                cpu,
                correlation,
                child,
                q,
                message,
                user,
                kernel,
                log,
                Err::<u64, _>(e),
            ));
            return Err(e);
        },
        Ok(thread) => thread,
    };
    proof {
        log = StartLog { thread: Ok(thread), ..log };
        slots::lemma_first(exec@.sched(cpu).threads, slots::free::<Thread>());
    }
    if let Err(e) = exec.add_thread(cpu, thread, correlation) {
        env.support.release_kernel_stack(kernel_stack);
        let ghost b = StartView {
            state: exec@,
            processes: processes@,
            trace: env.support.trace(),
        };
        assert(started(
            a,
            b,
            cpu,
            correlation,
            child,
            q,
            message,
            user,
            kernel,
            log,
            Err::<u64, _>(e),
        ));
        return Err(e);
    }
    assert(exec@ =~= a.state.with_sched(cpu, joined(a.state.sched(cpu), thread, correlation)));
    let joined_process: bool = match processes.process_of_id(child) {
        None => false,
        Some(c) => {
            if c.add_thread(thread.id).is_ok() {
                c.set_running();
                true
            } else {
                false
            }
        },
    };
    if !joined_process {
        env.support.release_kernel_stack(kernel_stack);
        let ghost b = StartView {
            state: exec@,
            processes: processes@,
            trace: env.support.trace(),
        };
        assert(processes@ =~= t2);
        assert(started(
            a,
            b,
            cpu,
            correlation,
            child,
            q,
            message,
            user,
            kernel,
            log,
            Err::<u64, _>(KError::OutOfMemory),
        ));
        return Err(KError::OutOfMemory);
    }
    proof {
        let b = StartView {
            state: exec@,
            processes: processes@,
            trace: env.support.trace(),
        };
        let seat = slots::first(p.threads, slots::free::<ThreadId>());
        assert(processes@ =~= t.update(
            at,
            Some(
                ProcessView {
                    space: processes@[at]->0.space,
                    threads: p.threads.update(seat, Some(thread.id)),
                    state: ProcessState::Running,
                    ..p
                },
            ),
        ));
        assert(started(
            a,
            b,
            cpu,
            correlation,
            child,
            q,
            message,
            user,
            kernel,
            log,
            Ok::<u64, KError>(0u64),
        ));
    }
    Ok(0)
}

/// A wait that was admitted: which handle it came by, and for whom it is.
#[derive(Clone, Copy, PartialEq, Eq, Debug, Structural)]
pub struct WaitTicket {
    pub handle: Handle,
    pub child: ObjectId,
}

/// What a request to wait for a process comes to.
pub enum WaitStep {
    /// Refused.
    Refused(KError),
    /// The process has exited already: [`wait_resume`] answers at once.
    Ready(WaitTicket),
    /// The caller leaves the processor; [`wait_resume`] answers when it runs
    /// again.
    Park(WaitTicket, Switch),
}

/// Waits for a child to exit. `args` is what reading the handle came to. A
/// process that has already exited does not make the caller wait.
pub fn wait<S: Space>(
    exec: &mut Executive,
    processes: &mut ProcessTable<S>,
    cpu: u32,
    caller: ThreadId,
    args: Result<Handle, KError>,
) -> (r: WaitStep)
    requires
        old(exec).wf(),
        old(exec)@.can_switch(cpu),
        old(processes).wf(),
    ensures
        final(exec).wf(),
        final(processes).wf(),
        ({
            let t = old(processes)@;
            let unchanged = final(exec)@ == old(exec)@ && final(processes)@ == t;
            match claim(t, caller, args, Rights::READ) {
                Err(e) => r == WaitStep::Refused(e) && unchanged,
                Ok(child) => match process_called(t, child) {
                    None => r == WaitStep::Refused(KError::BadHandle) && unchanged,
                    Some(p) => {
                        let ticket = WaitTicket { handle: args->Ok_0, child };
                        if p.state is Exited {
                            r == WaitStep::Ready(ticket) && unchanged
                        } else if p.waiters.len() == MAX_PROCESS_WAITERS {
                            r == WaitStep::Refused(KError::OutOfMemory) && unchanged
                        } else {
                            let here = old(exec)@.resident(cpu);
                            &&& r == WaitStep::Park(ticket, here.park_switch(cpu))
                            &&& final(exec)@ == here.parked(cpu)
                            &&& final(processes)@ == t.update(
                                process_slot(t, child),
                                Some(ProcessView { waiters: p.waiters.push(caller), ..p }),
                            )
                        }
                    },
                },
            }
        }),
{
    let ghost t = processes@;
    let child: ObjectId = match claimed(processes, caller, args, Rights::READ) {
        Err(e) => {
            return WaitStep::Refused(e);
        },
        Ok(object) => object,
    };
    let handle: Handle = match args {
        Err(e) => {
            return WaitStep::Refused(e);
        },
        Ok(handle) => handle,
    };
    let ticket = WaitTicket { handle, child };
    proof {
        slots::lemma_first(t, called::<S>(child));
    }
    match processes.process_of_id(child) {
        None => {
            return WaitStep::Refused(KError::BadHandle);
        },
        Some(p) => {
            if p.is_exited() {
                assert(processes@ =~= t);
                return WaitStep::Ready(ticket);
            }
            if p.add_waiter(caller).is_err() {
                assert(processes@ =~= t);
                return WaitStep::Refused(KError::OutOfMemory);
            }
        },
    }
    // Recorded before it parks, so the exit can be told from any CPU.
    exec.note_residence(cpu);
    WaitStep::Park(ticket, exec.park_current(cpu))
}

/// A child that was waited for: its exit code as the caller sees it, and what
/// is left of it, torn down.
pub struct Waited<S: Space> {
    pub code: u64,
    pub remains: Option<Process<S>>,
}

/// An exit code as one unsigned word.
pub open spec fn exit_word(code: i32) -> u64 {
    if code >= 0 {
        code as u64
    } else {
        (code + 0x1_0000_0000) as u64
    }
}

/// The length of a kernel stack.
pub open spec fn stack_len(t: Thread) -> u64 {
    if t.kernel_stack_top >= t.kernel_stack_base {
        (t.kernel_stack_top - t.kernel_stack_base) as u64
    } else {
        0
    }
}

/// What reaping threads changes.
pub struct ReapView {
    pub state: ExecView,
    pub trace: Seq<LoaderOp>,
}

/// After the thread called `id` is reaped, if some CPU has it and is not running
/// it: its slot is free, its kernel stack unmapped, and the window given back.
pub open spec fn reap_one(s: ReapView, id: ThreadId, ok: bool) -> ReapView {
    let cpu = s.state.keeper(id);
    let sched = s.state.cpus[cpu].sched;
    let at = sched.place_of(id);
    if cpu < MAX_CPUS && at < MAX_THREADS && sched.current != Some(at as usize) {
        let t = sched.threads[at]->0;
        ReapView {
            state: s.state.with_sched(
                cpu as u32,
                SchedView {
                    ready: without(sched.ready, at as usize),
                    threads: sched.threads.update(at, None),
                    ..sched
                },
            ),
            trace: s.trace.push(
                LoaderOp::ReclaimStack { va: t.kernel_stack_base, len: stack_len(t), ok },
            ).push(LoaderOp::ReleaseStack(t.kernel_stack_base)),
        }
    } else {
        s
    }
}

/// After the first `n` threads of `ids` are reaped, where `oks` says which
/// stacks were unmapped.
pub open spec fn reap_steps(s: ReapView, ids: Seq<ThreadId>, oks: Seq<bool>, n: int) -> ReapView
    decreases n,
{
    if n <= 0 {
        s
    } else {
        reap_one(reap_steps(s, ids, oks, n - 1), ids[n - 1], oks[n - 1])
    }
}

proof fn lemma_reap_prefix(s: ReapView, ids: Seq<ThreadId>, a: Seq<bool>, b: Seq<bool>, n: int)
    requires
        0 <= n <= a.len(),
        n <= b.len(),
        forall|i: int| 0 <= i < n ==> a[i] == b[i],
    ensures
        reap_steps(s, ids, a, n) == reap_steps(s, ids, b, n),
    decreases n,
{
    if n > 0 {
        lemma_reap_prefix(s, ids, a, b, n - 1);
    }
}

/// The threads a process lists.
pub open spec fn seated<S>(p: ProcessView<S>) -> Seq<ThreadId> {
    chosen(p.threads, slots::used::<ThreadId>())
}

fn seated_threads<S: Space>(p: &Process<S>) -> (out: Vec<ThreadId>)
    requires
        p.wf(),
    ensures
        out@ == seated(p@),
{
    let threads = p.thread_ids();
    let mut out: Vec<ThreadId> = Vec::new();
    let ghost used = slots::used::<ThreadId>();
    let mut i: usize = 0;
    assert(threads@.take(0) =~= Seq::empty());
    while i < threads.len()
        invariant
            i <= threads@.len(),
            used == slots::used::<ThreadId>(),
            out@ == chosen(threads@.take(i as int), used),
        decreases threads@.len() - i,
    {
        proof {
            assert(threads@.take(i + 1).drop_last() =~= threads@.take(i as int));
            assert(threads@.take(i + 1).last() == threads@[i as int]);
        }
        if let Some(id) = threads[i] {
            out.push(id);
        }
        i += 1;
    }
    assert(threads@.take(i as int) =~= threads@);
    out
}

/// Reaps the threads of `ids`: slots, kernel stacks and windows go back.
fn reap_threads<S: Space, L: LoaderSupport<S>, F: FrameSource>(
    support: &mut L,
    exec: &mut Executive,
    alloc: &mut F,
    ids: &Vec<ThreadId>,
)
    requires
        old(exec).wf(),
        old(alloc).inv(),
    ensures
        final(exec).wf(),
        final(alloc).inv(),
        charged(old(support).frames(), final(support).frames(), *old(alloc), *final(alloc)),
        exists|oks: Seq<bool>| #[trigger]
            reaped(
                old(exec)@,
                final(exec)@,
                old(support).trace(),
                final(support).trace(),
                ids@,
                oks,
            ),
{
    let ghost v = exec@;
    let ghost s = ReapView { state: v, trace: support.trace() };
    proof {
        lemma_charged_nothing(support.frames(), *alloc);
    }
    let ghost mut oks: Seq<bool> = Seq::empty();
    let mut i: usize = 0;
    while i < ids.len()
        invariant
            exec.wf(),
            alloc.inv(),
            i <= ids@.len(),
            oks.len() == i,
            s == (ReapView { state: v, trace: old(support).trace() }),
            exec@ == reap_steps(s, ids@, oks, i as int).state,
            support.trace() == reap_steps(s, ids@, oks, i as int).trace,
            charged(old(support).frames(), support.frames(), *old(alloc), *alloc),
        decreases ids@.len() - i,
    {
        let id: ThreadId = ids[i];
        let ghost was = oks;
        let ghost before = reap_steps(s, ids@, oks, i as int);
        let ghost mut ok = true;
        let mut gone: Option<Thread> = None;
        if let Some(cpu) = exec.keeper_of(id) {
            let sched = exec.scheduler_at(cpu);
            if let Some(slot) = sched.lookup(id) {
                gone = sched.reap(slot);
            }
            proof {
                let x = before.state;
                assert(x.with_sched(cpu, x.sched(cpu)) =~= x);
            }
        }
        if let Some(thread) = gone {
            let len: u64 = if thread.kernel_stack_top >= thread.kernel_stack_base {
                thread.kernel_stack_top - thread.kernel_stack_base
            } else {
                0
            };
            let ghost had = support.frames();
            let ghost seen = *alloc;
            let unmapped = support.reclaim_kernel_range(thread.kernel_stack_base, len, alloc);
            proof {
                ok = unmapped is Ok;
                lemma_charged(
                    old(support).frames(),
                    had,
                    support.frames(),
                    *old(alloc),
                    seen,
                    *alloc,
                );
            }
            support.release_kernel_stack(thread.kernel_stack_base);
        }
        proof {
            oks = was.push(ok);
            lemma_reap_prefix(s, ids@, was, oks, i as int);
            let after = reap_steps(s, ids@, oks, i + 1);
            assert(after == reap_one(before, ids@[i as int], ok));
            assert(exec@ =~= after.state);
        }
        i += 1;
    }
    assert(reaped(v, exec@, old(support).trace(), support.trace(), ids@, oks));
}

/// What reaping the threads of `ids` comes to.
pub open spec fn reaped(
    v: ExecView,
    w: ExecView,
    trace: Seq<LoaderOp>,
    trace_after: Seq<LoaderOp>,
    ids: Seq<ThreadId>,
    oks: Seq<bool>,
) -> bool {
    let after = reap_steps(ReapView { state: v, trace }, ids, oks, ids.len() as int);
    &&& oks.len() == ids.len()
    &&& w == after.state
    &&& trace_after == after.trace
}

/// What letting go of everything `owner` held in memory comes to, when no
/// device's translations can be dropped. `freed` is what that asks of the frame
/// source: every frame of every object destroyed, back.
pub open spec fn memory_let_go(
    v: ExecView,
    w: ExecView,
    owner: ObjectId,
    freed: Seq<FrameOp>,
) -> bool {
    let list = listed(v.machine.memory.objects, held_by(owner));
    let start = ReleaseView {
        memory: v.machine.memory,
        dma: Seq::empty(),
        frames: Seq::empty(),
        destroyed: 0,
    };
    exists|oks: Seq<bool>|
        {
            let end = #[trigger] release_steps(
                start,
                false,
                owner,
                list,
                oks,
                list.len() as int,
            );
            w == v.with_memory(end.memory) && freed == end.frames
        }
}

/// What reclaiming an exited child comes to: its threads reaped, its place in
/// the table free, its memory objects let go of, which gives `freed` back, and
/// its address space torn down.
pub open spec fn reclaimed<S: Space>(
    a: StartView<S>,
    b: StartView<S>,
    child: ObjectId,
    freed: Seq<FrameOp>,
    remains: Option<ProcessView<S>>,
) -> bool {
    let p = process_called(a.processes, child)->0;
    &&& b.processes == a.processes.update(process_slot(a.processes, child), None)
    &&& remains matches Some(q) && q == (ProcessView { space: q.space, ..p })
        && q.space.trace() == p.space.trace().push(SpaceOp::Teardown)
        && p.space.frames().is_prefix_of(q.space.frames())
    &&& exists|m: ExecView, oks: Seq<bool>| #[trigger]
        reaped(a.state, m, a.trace, b.trace, seated(p), oks) && memory_let_go(
            m,
            b.state,
            child,
            freed,
        )
}

/// What reclaiming a child asks of the frame source, in order: what unmapping its
/// kernel stacks asks, which goes to the port's account, then `freed`, then what
/// tearing its address space down asks, which goes to that one's.
pub open spec fn reclaim_asks(
    port: Seq<FrameOp>,
    port_after: Seq<FrameOp>,
    freed: Seq<FrameOp>,
    space: Seq<FrameOp>,
    space_after: Seq<FrameOp>,
) -> Seq<FrameOp> {
    gained(port, port_after) + freed + gained(space, space_after)
}

/// Returns an exited child's resources to their pools.
fn reclaim<S: Space, L: LoaderSupport<S>, F: FrameSource>(
    support: &mut L,
    exec: &mut Executive,
    processes: &mut ProcessTable<S>,
    alloc: &mut F,
    child: ObjectId,
) -> (remains: Option<Process<S>>)
    requires
        old(exec).wf(),
        old(processes).wf(),
        old(alloc).inv(),
        process_called(old(processes)@, child) is Some,
    ensures
        final(exec).wf(),
        final(processes).wf(),
        final(alloc).inv(),
        old(support).frames().is_prefix_of(final(support).frames()),
        exists|freed: Seq<FrameOp>| #[trigger]
            reclaimed(
                StartView {
                    state: old(exec)@,
                    processes: old(processes)@,
                    trace: old(support).trace(),
                },
                StartView {
                    state: final(exec)@,
                    processes: final(processes)@,
                    trace: final(support).trace(),
                },
                child,
                freed,
                process_view(remains),
            ) && asked(
                *old(alloc),
                *final(alloc),
                reclaim_asks(
                    old(support).frames(),
                    final(support).frames(),
                    freed,
                    process_called(old(processes)@, child)->0.space.frames(),
                    process_view(remains)->0.space.frames(),
                ),
            ),
{
    let ghost v = exec@;
    let ghost t = processes@;
    proof {
        slots::lemma_first(t, called::<S>(child));
    }
    let index: usize = match processes.index_of_id(child) {
        None => {
            return None;
        },
        Some(i) => i,
    };
    let ids: Vec<ThreadId> = match processes.get(index) {
        None => Vec::new(),
        Some(p) => seated_threads(p),
    };
    reap_threads::<S, L, F>(support, exec, alloc, &ids);
    let ghost m = exec@;
    let mut p: Process<S> = match processes.remove(index) {
        None => {
            return None;
        },
        Some(p) => p,
    };
    let ghost gone = p@;
    let mut iommu = NoDma;
    let ghost seen = *alloc;
    exec.release_memory_of(child, alloc, &mut iommu);
    let ghost list = listed(m.machine.memory.objects, held_by(child));
    let ghost start = ReleaseView {
        memory: m.machine.memory,
        dma: Seq::empty(),
        frames: Seq::empty(),
        destroyed: 0,
    };
    let ghost (oks, freed) = choose|oks: Seq<bool>, ops: Seq<FrameOp>|
        {
            let end = #[trigger] release_steps(
                start,
                false,
                child,
                list,
                oks,
                list.len() as int,
            );
            end.memory == exec@.machine.memory && end.frames == ops && #[trigger] asked(
                seen,
                *alloc,
                ops,
            )
        };
    proof {
        assert(exec@ == m.with_memory(
            release_steps(start, false, child, list, oks, list.len() as int).memory,
        ));
        assert(memory_let_go(m, exec@, child, freed));
    }
    let ghost let_go = *alloc;
    p.space_mut().teardown(alloc);
    proof {
        assert(gone == process_called(t, child)->0);
        assert(ids@ == seated(gone));
        let oks = choose|oks: Seq<bool>| #[trigger]
            reaped(v, m, old(support).trace(), support.trace(), ids@, oks);
        let a = StartView { state: v, processes: t, trace: old(support).trace() };
        let b = StartView { state: exec@, processes: processes@, trace: support.trace() };
        assert(reaped(a.state, m, a.trace, b.trace, seated(gone), oks));
        assert(memory_let_go(m, b.state, child, freed));
        assert(reclaimed(a, b, child, freed, Some(p@)));
        let stacks = gained(old(support).frames(), support.frames());
        lemma_asked(*old(alloc), seen, let_go, stacks, freed);
        lemma_asked(
            *old(alloc),
            let_go,
            *alloc,
            stacks + freed,
            gained(gone.space.frames(), p@.space.frames()),
        );
    }
    Some(p)
}

/// What closing `handle` does to a table and to the objects.
pub open spec fn closed_handle(
    h: HandleTableView,
    objects: ObjectTableView,
    handle: Handle,
) -> (HandleTableView, ObjectTableView) {
    match h.find(handle) {
        None => (h, objects),
        Some(e) => (
            h.cleared(handle.index_of()),
            if objects.find(e.object) is Some {
                objects.released(e.object)
            } else {
                objects
            },
        ),
    }
}

/// The rest of a wait: once the child has exited, reclaims it, closes the
/// caller's handle to it and reports its code. Resumed while the child has not
/// exited, it is refused and nothing changes.
pub fn wait_resume<S: Space, L: LoaderSupport<S>, F: FrameSource>(
    env: &mut LoaderEnv<L>,
    exec: &mut Executive,
    processes: &mut ProcessTable<S>,
    alloc: &mut F,
    caller: ThreadId,
    ticket: WaitTicket,
) -> (r: Result<Waited<S>, KError>)
    requires
        old(env).objects.wf(),
        old(exec).wf(),
        old(processes).wf(),
        old(alloc).inv(),
    ensures
        final(env).objects.wf(),
        final(exec).wf(),
        final(processes).wf(),
        final(alloc).inv(),
        ({
            let a = StartView {
                state: old(exec)@,
                processes: old(processes)@,
                trace: old(env).support.trace(),
            };
            match process_called(old(processes)@, ticket.child) {
                Some(p) => match p.state {
                    ProcessState::Exited(code) => {
                        &&& old(env).support.frames().is_prefix_of(final(env).support.frames())
                        &&& r matches Ok(w) && w.code == exit_word(code) && exists|
                            u: ProcessesView<S>,
                            freed: Seq<FrameOp>,
                        | #[trigger]
                            reclaimed(
                                a,
                                StartView {
                                    state: final(exec)@,
                                    processes: u,
                                    trace: final(env).support.trace(),
                                },
                                ticket.child,
                                freed,
                                process_view(w.remains),
                            ) && asked(
                                *old(alloc),
                                *final(alloc),
                                reclaim_asks(
                                    old(env).support.frames(),
                                    final(env).support.frames(),
                                    freed,
                                    p.space.frames(),
                                    process_view(w.remains)->0.space.frames(),
                                ),
                            ) && match process_owning(u, caller) {
                                Some(parent) => {
                                    let (handles, objects) = closed_handle(
                                        parent.handles,
                                        old(env).objects@,
                                        ticket.handle,
                                    );
                                    &&& final(processes)@ == u.update(
                                        owner_slot(u, caller),
                                        Some(ProcessView { handles, ..parent }),
                                    )
                                    &&& final(env).objects@ == objects
                                },
                                None => final(processes)@ == u && final(env).objects@ == old(
                                    env,
                                ).objects@,
                            }
                    },
                    _ => {
                        &&& r is Err && r->Err_0 == KError::Protocol
                        &&& final(exec)@ == old(exec)@
                        &&& final(processes)@ == old(processes)@
                        &&& *final(env) == *old(env)
                        &&& *final(alloc) == *old(alloc)
                        &&& final(alloc).trace() == old(alloc).trace()
                    },
                },
                None => {
                    &&& r is Err && r->Err_0 == KError::Protocol
                    &&& final(exec)@ == old(exec)@
                    &&& final(processes)@ == old(processes)@
                    &&& *final(env) == *old(env)
                    &&& *final(alloc) == *old(alloc)
                    &&& final(alloc).trace() == old(alloc).trace()
                },
            }
        }),
{
    let ghost t = processes@;
    proof {
        slots::lemma_first(t, called::<S>(ticket.child));
    }
    let code: i32 = match processes.index_of_id(ticket.child) {
        None => {
            return Err(KError::Protocol);
        },
        Some(index) => match processes.get(index) {
            None => {
                return Err(KError::Protocol);
            },
            Some(p) => match p.state() {
                ProcessState::Exited(code) => code,
                _ => {
                    return Err(KError::Protocol);
                },
            },
        },
    };
    let remains = reclaim(&mut env.support, exec, processes, alloc, ticket.child);
    let ghost u = processes@;
    if let Some(parent) = processes.process_of_thread(caller) {
        let _ = parent.handles_mut().close(&mut env.objects, ticket.handle);
    }
    proof {
        slots::lemma_first(u, owning::<S>(caller));
        if let Some(parent) = process_owning(u, caller) {
            let (handles, objects) = closed_handle(
                parent.handles,
                old(env).objects@,
                ticket.handle,
            );
            assert(processes@ =~= u.update(
                owner_slot(u, caller),
                Some(ProcessView { handles, ..parent }),
            ));
        }
    }
    proof {
        let a = StartView {
            state: old(exec)@,
            processes: old(processes)@,
            trace: old(env).support.trace(),
        };
        let b = StartView { state: exec@, processes: u, trace: env.support.trace() };
        let freed = choose|freed: Seq<FrameOp>| #[trigger]
            reclaimed(a, b, ticket.child, freed, process_view(remains)) && asked(
                *old(alloc),
                *alloc,
                reclaim_asks(
                    old(env).support.frames(),
                    env.support.frames(),
                    freed,
                    process_called(t, ticket.child)->0.space.frames(),
                    process_view(remains)->0.space.frames(),
                ),
            );
        assert(reclaimed(a, b, ticket.child, freed, process_view(remains)));
    }
    let word: u64 = if code >= 0 {
        code as u64
    } else {
        (code as i64 + 0x1_0000_0000) as u64
    };
    Ok(Waited { code: word, remains })
}

/// A process that exits leaves no waiter behind: every thread of this CPU that
/// waited for it is ready to run, and every one whose place on another CPU is
/// recorded is posted there.
pub proof fn law_exit_readies_its_waiters(
    v: ExecView,
    cpu: u32,
    waiters: Seq<ThreadId>,
    id: ThreadId,
)
    requires
        v.cpus.len() == MAX_CPUS,
        v.sched(cpu).threads.len() == MAX_THREADS,
        waiters.contains(id),
    ensures
        ({
            let w = v.woken_all(cpu, waiters);
            match v.residence(cpu, id) {
                Residence::Here(slot) => w.sched(cpu).thread(slot) matches Some(t) && t.id == id
                    && t.state == ThreadState::Ready,
                Residence::Elsewhere { cpu: other, slot } => w.machine.posted.contains(
                    Posted { cpu: other, slot, id },
                ),
                Residence::Gone => true,
            }
        }),
{
    lemma_woken_all_readies(v, cpu, waiters, id);
    slots::lemma_first(v.sched(cpu).threads, live_as(id));
    slots::lemma_first(v.woken_all(cpu, waiters).sched(cpu).threads, live_as(id));
    if v.residence(cpu, id) is Elsewhere {
        lemma_woken_all_posts(v, cpu, waiters, id);
    }
}

/// A thread elsewhere among those woken is posted there.
proof fn lemma_woken_all_posts(v: ExecView, cpu: u32, ids: Seq<ThreadId>, id: ThreadId)
    requires
        v.cpus.len() == MAX_CPUS,
        v.sched(cpu).threads.len() == MAX_THREADS,
        ids.contains(id),
        v.residence(cpu, id) is Elsewhere,
    ensures
        v.residence(cpu, id) matches Residence::Elsewhere { cpu: other, slot }
            && v.woken_all(cpu, ids).machine.posted.contains(Posted { cpu: other, slot, id }),
    decreases ids.len(),
{
    let shorter = ids.drop_last();
    let u = v.woken_all(cpu, shorter);
    let w = v.woken_all(cpu, ids);
    lemma_woken_all_readies(v, cpu, shorter, id);
    lemma_woken_all_frame(v, cpu, shorter);
    slots::lemma_first(v.sched(cpu).threads, live_as(id));
    assert(u.residence(cpu, id) == v.residence(cpu, id));
    let (other, slot) = match v.residence(cpu, id) {
        Residence::Elsewhere { cpu: other, slot } => (other, slot),
        _ => (0, 0),
    };
    let p = Posted { cpu: other, slot, id };
    if ids.last() == id {
        assert(w.machine.posted == u.machine.posted.push(p));
        assert(w.machine.posted[u.machine.posted.len() as int] == p);
    } else {
        let n = choose|n: int| 0 <= n < ids.len() && ids[n] == id;
        assert(shorter[n] == id);
        lemma_woken_all_posts(v, cpu, shorter, id);
        let k = choose|k: int| 0 <= k < u.machine.posted.len() && u.machine.posted[k] == p;
        assert(w.machine.posted[k] == p);
    }
}

/// A started process begins where its starter said: the last thing asked of the
/// port is a thread that enters at the requested entry with the requested
/// argument, on the requested stack, in the process that was named, on the
/// kernel-stack window that was taken for it; and the thread that was made is
/// the one that is queued, in a process that runs.
pub proof fn law_a_started_process_begins_at_its_entry<S: Space>(
    a: StartView<S>,
    b: StartView<S>,
    cpu: u32,
    correlation: u64,
    child: ObjectId,
    q: StartRequest,
    message: Result<(), KError>,
    user_pages: u64,
    kernel_pages: u64,
    log: StartLog,
    r: Result<u64, KError>,
)
    requires
        a.state.cpus.len() == MAX_CPUS,
        a.state.sched(cpu).wf(),
        crate::process::processes_wf(a.processes),
        process_called(a.processes, child) is Some,
        started(
            a,
            b,
            cpu,
            correlation,
            child,
            q,
            message,
            user_pages,
            kernel_pages,
            log,
            r,
        ),
        r is Ok,
    ensures
        r->Ok_0 == 0,
        b.trace.len() == a.trace.len() + 2,
        forall|k: int| 0 <= k < a.trace.len() ==> #[trigger] b.trace[k] == a.trace[k],
        b.trace[a.trace.len() as int] matches LoaderOp::TakeStack(Some(window)) && (
        b.trace.last() matches LoaderOp::Spawn { request, made, failed } && {
            &&& request.entry == q.entry
            &&& request.arg == q.arg
            &&& request.stack == q.stack
            &&& request.process == child
            &&& request.kernel_stack == window
            &&& request.user_pages == user_pages
            &&& request.kernel_pages == kernel_pages
            &&& failed is None
            &&& made matches Some(t) && {
                &&& exists|k: int|
                    {
                        &&& 0 <= k < MAX_THREADS
                        &&& a.state.sched(cpu).threads[k] is None
                        &&& #[trigger] b.state.sched(cpu).threads[k] matches Some(n)
                        &&& n.id == t.id
                        &&& n.state == ThreadState::Ready
                        &&& n.correlation == correlation
                        &&& n.process == Some(child)
                        &&& n.priority == t.priority
                        &&& n.kernel_stack_base == window
                        &&& n.kernel_stack_top == t.kernel_stack_top
                        &&& n.space_root == t.space_root
                        &&& b.state.sched(cpu).ready == a.state.sched(cpu).ready.push(k as usize)
                    }
                &&& process_called(b.processes, child) matches Some(p) && p.threads.contains(
                    Some(t.id),
                ) && p.state == ProcessState::Running && p.handles == process_called(
                    a.processes,
                    child,
                )->0.handles
            }
        }),
{
    let sched = a.state.sched(cpu);
    let free = slots::free::<Thread>();
    slots::lemma_first(sched.threads, free);
    let p = process_called(a.processes, child)->0;
    let at = process_slot(a.processes, child);
    slots::lemma_first(a.processes, called::<S>(child));
    slots::lemma_first(p.threads, slots::free::<ThreadId>());
    let seat = slots::first(p.threads, slots::free::<ThreadId>());
    assert(free(sched.threads[sched.vacancy()]));
    assert(b.state.sched(cpu) == joined(sched, log.thread->Ok_0, correlation));
    assert(b.state.sched(cpu).threads[sched.vacancy()] is Some);
    assert forall|j: int| 0 <= j < at implies !called::<S>(child)(#[trigger] b.processes[j]) by {
        assert(!called::<S>(child)(a.processes[j]));
    }
    slots::lemma_first_is(b.processes, called::<S>(child), at);
    assert(b.processes[at]->0.threads[seat] == Some(log.thread->Ok_0.id));
}

/// A start is refused for a reason that holds: the caller has no process, its
/// request cannot be read, it has no handle to the child or one that does not
/// let it write, the child is gone, or has been started before.
pub proof fn law_a_start_is_refused_for_cause<S>(
    t: ProcessesView<S>,
    caller: ThreadId,
    args: Result<StartRequest, KError>,
)
    ensures
        process_owning(t, caller) is None ==> start_refusal(t, caller, args) == Some(
            KError::AccessDenied,
        ),
        process_owning(t, caller) matches Some(p) ==> match args {
            Err(e) => start_refusal(t, caller, args) == Some(e),
            Ok(q) => match p.handles.find(q.process) {
                None => start_refusal(t, caller, args) == Some(KError::BadHandle),
                Some(h) => {
                    let may = h.rights@ & Rights::WRITE == Rights::WRITE;
                    &&& !may ==> start_refusal(t, caller, args) == Some(KError::AccessDenied)
                    &&& may && process_called(t, h.object) is None ==> start_refusal(
                        t,
                        caller,
                        args,
                    ) == Some(KError::BadHandle)
                    &&& may ==> (process_called(t, h.object) matches Some(c) ==> (c.state
                        == ProcessState::Created <==> start_refusal(t, caller, args) is None))
                    &&& start_refusal(t, caller, args) is None ==> may && authority(
                        p,
                        q.process,
                        Rights::WRITE,
                    ) == Ok::<_, KError>(h.object)
                },
            },
        },
{
    if let Some(p) = process_owning(t, caller) {
        if let Ok(q) = args {
            if let Some(h) = p.handles.find(q.process) {
                let x = h.rights@;
                let y = Rights::WRITE;
                assert(x & y == y & x) by (bit_vector);
            }
        }
    }
}

/// What a handle lets a process do: it is dead, it lacks the right, or it names
/// the object.
pub proof fn law_authority_is_the_handles<S>(
    p: ProcessView<S>,
    t: ProcessesView<S>,
    caller: ThreadId,
    handle: Handle,
    right: u64,
)
    ensures
        p.handles.find(handle) is None ==> authority(p, handle, right) == Err::<ObjectId, _>(
            KError::BadHandle,
        ),
        p.handles.find(handle) matches Some(h) ==> {
            &&& (forall|i: u64|
                i < 64 && #[trigger] crate::rights::holds(right, i) ==> crate::rights::holds(
                    h.rights@,
                    i,
                )) ==> authority(p, handle, right) == Ok::<_, KError>(h.object)
            &&& (exists|i: u64|
                i < 64 && #[trigger] crate::rights::holds(right, i) && !crate::rights::holds(
                    h.rights@,
                    i,
                )) ==> authority(p, handle, right) == Err::<ObjectId, _>(KError::AccessDenied)
        },
        process_owning(t, caller) is None ==> claim(t, caller, Ok(handle), right) == Err::<
            ObjectId,
            _,
        >(KError::AccessDenied),
        process_owning(t, caller) matches Some(o) ==> claim(t, caller, Ok(handle), right)
            == authority(o, handle, right),
        forall|e: KError|
            process_owning(t, caller) is Some ==> #[trigger] claim(t, caller, Err(e), right)
                == Err::<ObjectId, _>(e),
{
    if let Some(h) = p.handles.find(handle) {
        crate::rights::law_subset_is_bitwise(right, h.rights@);
    }
}

/// A created process is new and has not started: its id is a fresh object's, its
/// space the one that was made for it, and its creator has a handle to it with
/// the rights to read, write and map it.
pub proof fn law_a_created_process_is_its_creators<S: Space>(
    objects: ObjectTableView,
    t: ProcessesView<S>,
    caller: ThreadId,
    made: Result<S, KError>,
    after: ObjectTableView,
    u: ProcessesView<S>,
    r: Result<Handle, KError>,
)
    requires
        objects.wf(),
        crate::process::processes_wf(t),
        process_owning(t, caller) is Some,
        create_step(objects, t, caller, made, after, u, r),
    ensures
        r matches Ok(h) ==> {
            &&& made matches Ok(space)
            &&& after.find(objects.next_id()) matches Some(o)
            &&& o.object_type == ObjectType::Process && o.refcount == 1
            &&& objects.find(objects.next_id()) is None
            &&& u[owner_slot(t, caller)] matches Some(parent)
            &&& parent.handles.find(h) matches Some(e)
            &&& e.object == objects.next_id()
            &&& e.rights@ == Rights::READ | Rights::WRITE | Rights::MAP
            &&& exists|k: int|
                {
                    &&& 0 <= k < t.len()
                    &&& t[k] is None
                    &&& #[trigger] u[k] matches Some(c)
                    &&& c.id == objects.next_id()
                    &&& c.space == space
                    &&& c.state == ProcessState::Created
                    &&& c.waiters.len() == 0
                    &&& forall|j: int| 0 <= j < c.threads.len() ==> #[trigger] c.threads[j] is None
                    &&& forall|j: int|
                        0 <= j < t.len() && j != k && j != owner_slot(t, caller)
                            ==> #[trigger] u[j] == t[j]
                }
        },
        made matches Err(e) ==> r == Err::<Handle, _>(e) && u == t && after == objects,
        made is Ok && r is Err ==> r->Err_0 == KError::OutOfMemory,
        made is Ok && (exists|k: int| 0 <= k < t.len() && #[trigger] t[k] is None)
            && objects.vacancy() < MAX_OBJECTS && !process_owning(t, caller)->0.handles.full()
            ==> r is Ok,
{
    let p = process_owning(t, caller)->0;
    let free = slots::free::<ProcessView<S>>();
    slots::lemma_first(t, free);
    slots::lemma_first(t, owning::<S>(caller));
    slots::lemma_first(objects.slots, slots::free::<crate::object::ObjectEntry>());
    let id = objects.next_id();
    slots::lemma_packed(objects.vacancy(), objects.generations[objects.vacancy()]);
    slots::lemma_first(p.handles.slots, slots::free::<crate::handle::HandleEntry>());
    slots::lemma_packed(p.handles.vacancy(), p.handles.generations[p.handles.vacancy()]);
    let k = process_vacancy(t);
    if r is Ok {
        assert(free(t[k]));
        assert(k != owner_slot(t, caller));
        assert(u[k] is Some);
    }
    if exists|k: int| 0 <= k < t.len() && #[trigger] t[k] is None {
        let j = choose|k: int| 0 <= k < t.len() && #[trigger] t[k] is None;
        assert(free(t[j]));
    }
}

/// Bytes are placed where the request says: whole fresh pages that cover them
/// are mapped there for writing, they are copied from the caller, and the pages
/// are left usable as the rights say, no more and no less.
pub proof fn law_bytes_are_placed_where_asked(
    q: MapRequest,
    mapped: Option<KError>,
    copied: Option<KError>,
    sealed: Option<KError>,
)
    requires
        q.length > 0,
        q.length + FRAME_SIZE <= u64::MAX,
    ensures
        ({
            let ops = placing(q, mapped, copied, sealed);
            &&& ops.len() > 0
            &&& ops[0] matches SpaceOp::MapFresh { va, len, flags, failed } && {
                &&& va == q.vaddr
                &&& len >= q.length && len < q.length + FRAME_SIZE && len % FRAME_SIZE == 0
                &&& flags.read && flags.write && flags.user && !flags.execute
                &&& failed == mapped
            }
            &&& mapped is Some ==> ops.len() == 1
            &&& mapped is None && q.src != 0 ==> ops.len() >= 2 && (
            ops[1] matches SpaceOp::CopyIn { va, src, len, failed } && va == q.vaddr && src == q.src
                && len == q.length && failed == copied)
            &&& mapped is None && q.src != 0 && copied is Some ==> ops.len() == 2
            &&& mapped is None && (q.src == 0 || copied is None) ==> ops.len() == (if q.src == 0 {
                2int
            } else {
                3
            }) && (ops.last() matches SpaceOp::Protect { va, len, flags, failed } && {
                &&& va == q.vaddr
                &&& len == ops[0]->MapFresh_len
                &&& flags.read && flags.user
                &&& flags.write <==> q.rights@ & Rights::WRITE == Rights::WRITE
                &&& flags.execute <==> q.rights@ & Rights::EXECUTE == Rights::EXECUTE
                &&& failed == sealed
            })
        }),
{
    let x = q.rights@;
    let y = Rights::WRITE;
    let z = Rights::EXECUTE;
    assert(x & y == y & x) by (bit_vector);
    assert(x & z == z & x) by (bit_vector);
}

/// A mapping that succeeds reports the bytes that were asked for, one that fails
/// the first thing that failed, and either is asked of the named child's space
/// and of no other process.
pub proof fn law_placing_touches_one_space<S: Space>(
    t: ProcessesView<S>,
    u: ProcessesView<S>,
    child: ObjectId,
    q: MapRequest,
    mapped: Option<KError>,
    copied: Option<KError>,
    sealed: Option<KError>,
    r: Result<u64, KError>,
    k: int,
)
    requires
        process_called(t, child) is Some,
        0 <= k < t.len(),
        placed(t, u, child, q, mapped, copied, sealed, r),
    ensures
        r matches Ok(n) ==> n == q.length && mapped is None && sealed is None && (q.src == 0
            || copied is None),
        mapped matches Some(e) ==> r == Err::<u64, _>(e),
        mapped is None && q.src != 0 ==> (copied matches Some(e) ==> r == Err::<u64, _>(e)),
        mapped is None && (q.src == 0 || copied is None) ==> (sealed matches Some(e) ==> r == Err::<
            u64,
            _,
        >(e)),
        t[k] matches Some(p) && p.id != child ==> u[k] == t[k],
        t[k] is None ==> u[k] is None,
        u.len() == t.len(),
{
    slots::lemma_first(t, called::<S>(child));
}

/// A mapping is refused for a reason that holds, and never asks for pages that
/// could be written and executed, or that lie beyond the user's addresses.
pub proof fn law_a_mapping_is_refused_for_cause<S>(
    t: ProcessesView<S>,
    caller: ThreadId,
    args: Result<MapRequest, KError>,
    source: Result<(), KError>,
    limit: u64,
)
    ensures
        process_owning(t, caller) is None ==> map_refusal(t, caller, args, source, limit) == Some(
            KError::AccessDenied,
        ),
        process_owning(t, caller) is Some ==> (args matches Err(e) ==> map_refusal(
            t,
            caller,
            args,
            source,
            limit,
        ) == Some(e)),
        process_owning(t, caller) is Some ==> (args matches Ok(q) ==> {
            &&& q.length == 0 ==> map_refusal(t, caller, args, source, limit) == Some(
                KError::InvalidMapping,
            )
            &&& q.length != 0 && q.rights@ & Rights::WRITE == Rights::WRITE && q.rights@
                & Rights::EXECUTE == Rights::EXECUTE ==> map_refusal(t, caller, args, source, limit)
                == Some(KError::WXViolation)
        }),
        map_refusal(t, caller, args, source, limit) is None ==> {
            &&& process_owning(t, caller) matches Some(p)
            &&& args matches Ok(q)
            &&& q.length > 0
            &&& q.vaddr + q.length <= limit
            &&& q.src != 0 ==> source is Ok
            &&& p.handles.find(q.process) matches Some(h)
            &&& h.rights@ & Rights::MAP == Rights::MAP
            &&& process_called(t, h.object) is Some
            &&& authority(p, q.process, Rights::MAP) == Ok::<_, KError>(h.object)
        },
{
    if let Ok(q) = args {
        let x = q.rights@;
        let y = Rights::WRITE;
        let z = Rights::EXECUTE;
        assert(x & y == y & x) by (bit_vector);
        assert(x & z == z & x) by (bit_vector);
        if let Some(p) = process_owning(t, caller) {
            if let Some(h) = p.handles.find(q.process) {
                let m = Rights::MAP;
                let w = h.rights@;
                assert(w & m == m & w) by (bit_vector);
            }
        }
    }
}

/// A startup message lands where the child is told to look: one fresh writable
/// page there, and the caller's bytes in it. A message longer than is allowed is
/// refused, and none at all asks for nothing.
pub proof fn law_a_startup_message_lands_where_asked(
    q: StartRequest,
    mapped: Option<KError>,
    copied: Option<KError>,
    message: Result<(), KError>,
)
    ensures
        q.message_len == 0 ==> delivering(q, mapped, copied).len() == 0 && message_refusal(
            q,
            message,
        ) is None,
        q.message_len > MAX_STARTUP_MESSAGE ==> message_refusal(q, message) == Some(
            KError::InvalidMapping,
        ),
        0 < q.message_len <= MAX_STARTUP_MESSAGE ==> message_refusal(q, message) == failure(message),
        q.message_len > 0 ==> {
            let ops = delivering(q, mapped, copied);
            &&& ops.len() == (if mapped is None {
                2int
            } else {
                1
            })
            &&& ops[0] matches SpaceOp::MapFresh { va, len, flags, failed } && va == q.message_va
                && len == FRAME_SIZE && flags.read && flags.write && flags.user && !flags.execute
                && failed == mapped
            &&& mapped is None ==> (ops[1] matches SpaceOp::CopyIn { va, src, len, failed } && va
                == q.message_va && src == q.message_ptr && len == q.message_len && failed == copied)
        },
{
}

/// An exit code is read back from the word it is reported as, and different
/// codes are reported differently.
pub proof fn law_exit_codes_survive(code: i32, other: i32)
    ensures
        exit_word(code) < 0x1_0000_0000,
        code >= 0 ==> exit_word(code) == code,
        code < 0 ==> exit_word(code) - 0x1_0000_0000 == code,
        exit_word(code) == exit_word(other) ==> code == other,
{
}

/// A reaped thread is gone from its CPU: its slot is free, its index is not
/// queued, no other thread is touched, and its kernel stack, from where it
/// starts to where it ends, is unmapped before its window is given back. One that
/// runs, or that no CPU has, is left alone.
pub proof fn law_a_reaped_thread_gives_its_stack_back(
    s: ReapView,
    id: ThreadId,
    ok: bool,
    cpu: int,
    at: int,
)
    requires
        s.state.cpus.len() == MAX_CPUS,
        forall|k: int| 0 <= k < MAX_CPUS ==> (#[trigger] s.state.cpus[k]).wf(),
        cpu == s.state.keeper(id),
        cpu < MAX_CPUS,
        at == s.state.cpus[cpu].sched.place_of(id),
    ensures
        0 <= cpu,
        0 <= at < MAX_THREADS,
        s.state.cpus[cpu].sched.threads[at] matches Some(t) && t.id == id,
        s.state.cpus[cpu].sched.current == Some(at as usize) ==> reap_one(s, id, ok) == s,
        s.state.cpus[cpu].sched.current != Some(at as usize) ==> {
            let t = s.state.cpus[cpu].sched.threads[at]->0;
            let a = reap_one(s, id, ok);
            &&& a.state.cpus[cpu].sched.threads[at] is None
            &&& !a.state.cpus[cpu].sched.ready.contains(at as usize)
            &&& forall|j: int|
                0 <= j < MAX_THREADS && j != at ==> #[trigger] a.state.cpus[cpu].sched.threads[j]
                    == s.state.cpus[cpu].sched.threads[j]
            &&& forall|k: int|
                0 <= k < MAX_CPUS && k != cpu ==> #[trigger] a.state.cpus[k] == s.state.cpus[k]
            &&& a.state.machine == s.state.machine
            &&& a.trace.len() == s.trace.len() + 2
            &&& forall|k: int| 0 <= k < s.trace.len() ==> #[trigger] a.trace[k] == s.trace[k]
            &&& a.trace[s.trace.len() as int] matches LoaderOp::ReclaimStack { va, len, ok: done }
                && va == t.kernel_stack_base && done == ok && (t.kernel_stack_top
                >= t.kernel_stack_base ==> va + len == t.kernel_stack_top)
            &&& a.trace.last() == LoaderOp::ReleaseStack(t.kernel_stack_base)
        },
{
    slots::lemma_first(s.state.cpus, crate::exec::keeps(id));
    let sched = s.state.cpus[cpu].sched;
    assert(crate::exec::keeps(id)(s.state.cpus[cpu]));
    assert(s.state.cpus[cpu].wf());
    slots::lemma_first(sched.threads, crate::sched::known_as(id));
    crate::sched::law_reaped_index_is_not_queued(sched.ready, at as usize);
    assert(crate::exec::seat(cpu as u32) == cpu);
}

/// A process that was waited for is gone: nobody is found under its id in its
/// slot, what remains of it is what it was, and its space was torn down last.
pub proof fn law_a_reclaimed_process_is_gone<S: Space>(
    a: StartView<S>,
    b: StartView<S>,
    child: ObjectId,
    freed: Seq<FrameOp>,
    remains: Option<ProcessView<S>>,
    k: int,
)
    requires
        crate::process::processes_wf(a.processes),
        process_called(a.processes, child) is Some,
        reclaimed(a, b, child, freed, remains),
        0 <= k < a.processes.len(),
    ensures
        b.processes.len() == a.processes.len(),
        b.processes[process_slot(a.processes, child)] is None,
        k != process_slot(a.processes, child) ==> b.processes[k] == a.processes[k],
        remains matches Some(q) && q.id == child && q.state == process_called(
            a.processes,
            child,
        )->0.state && q.handles == process_called(a.processes, child)->0.handles
            && q.space.trace().len() > 0 && q.space.trace().last() == SpaceOp::Teardown,
{
    slots::lemma_first(a.processes, called::<S>(child));
}

/// Every thread of a process is among those that are reaped with it.
pub proof fn law_every_seated_thread_is_reaped<S>(p: ProcessView<S>, k: int)
    requires
        0 <= k < p.threads.len(),
    ensures
        p.threads[k] matches Some(id) ==> seated(p).contains(id),
{
    lemma_seated(p.threads, k);
}

proof fn lemma_seated(s: Seq<Option<ThreadId>>, k: int)
    requires
        0 <= k < s.len(),
    ensures
        s[k] matches Some(id) ==> chosen(s, slots::used::<ThreadId>()).contains(id),
    decreases s.len(),
{
    let p = slots::used::<ThreadId>();
    let rest = s.drop_last();
    let d = chosen(rest, p);
    let c = chosen(s, p);
    if let Some(id) = s[k] {
        if k < rest.len() {
            lemma_seated(rest, k);
            assert(rest[k] == s[k]);
            let i = choose|i: int| 0 <= i < d.len() && d[i] == id;
            assert(c[i] == id);
        } else {
            assert(c.last() == id);
        }
    }
}

/// Once its child is waited for, the caller's handle to it is dead, and so is
/// the object if that was its last reference.
pub proof fn law_a_waited_for_handle_is_closed(
    h: HandleTableView,
    objects: ObjectTableView,
    handle: Handle,
)
    requires
        h.wf(),
        objects.wf(),
    ensures
        closed_handle(h, objects, handle).0.find(handle) is None,
        h.find(handle) matches Some(e) ==> (objects.find(e.object) matches Some(o) ==> {
            &&& o.refcount == 1 ==> closed_handle(h, objects, handle).1.find(e.object) is None
            &&& o.refcount > 1 ==> (closed_handle(h, objects, handle).1.find(
                e.object,
            ) matches Some(n) && n.refcount == o.refcount - 1)
        }),
        h.find(handle) is None ==> closed_handle(h, objects, handle) == (h, objects),
{
}

/// The pages of a child's stack are mapped where the request puts it, writable
/// and not executable, as many as the port gives; and what asking for a thread
/// is remembered as says what was asked and what came of it.
pub proof fn law_a_stack_is_mapped_where_asked(
    request: SpawnRequest,
    failed: Option<KError>,
    r: Result<Thread, KError>,
)
    requires
        request.user_pages * FRAME_SIZE <= u64::MAX,
    ensures
        stack_mapping(request, failed) matches SpaceOp::MapFresh { va, len, flags, failed: f } && va
            == request.stack && len == request.user_pages * FRAME_SIZE && flags.read && flags.write
            && flags.user && !flags.execute && f == failed,
        spawn_of(request, r) matches LoaderOp::Spawn { request: q, made, failed: f } && {
            &&& q == request
            &&& r matches Ok(t) ==> made == Some(t) && f is None
            &&& r matches Err(e) ==> made is None && f == Some(e)
        },
{
}

/// A thread can be made where both its stacks have addresses and a number is left
/// to name it by.
pub proof fn law_a_thread_can_be_made_where_its_stacks_fit(request: SpawnRequest, next_thread: u64)
    ensures
        spawnable(request, next_thread) <==> request.user_pages * FRAME_SIZE <= u64::MAX
            && request.kernel_stack + request.kernel_pages * FRAME_SIZE <= u64::MAX && next_thread
            != u64::MAX,
{
}

/// What goes to the frame source when a process is reclaimed: what its stacks
/// ask, the frames that its memory frees, and what tearing its space down asks,
/// in that order and nothing else.
pub proof fn law_a_reclaim_asks_for_stacks_memory_and_space(
    port: Seq<FrameOp>,
    port_more: Seq<FrameOp>,
    freed: Seq<FrameOp>,
    space: Seq<FrameOp>,
    space_more: Seq<FrameOp>,
)
    ensures
        reclaim_asks(port, port + port_more, freed, space, space + space_more) == port_more + freed
            + space_more,
{
    assert(gained(port, port + port_more) =~= port_more);
    assert(gained(space, space + space_more) =~= space_more);
}

/// Whether anybody was woken by an exit is whether any waiter could be reached.
pub proof fn law_an_exit_wakes_whoever_can_be_reached(v: ExecView, cpu: u32, ids: Seq<ThreadId>)
    requires
        ids.len() > 0,
    ensures
        v.any_woken(cpu, ids) <==> v.any_woken(cpu, ids.drop_last()) || v.woken_all(
            cpu,
            ids.drop_last(),
        ).residence(cpu, ids.last()) != Residence::Gone,
        !v.any_woken(cpu, Seq::empty()),
{
}

/// What a reclaimed process held is let go of, object by object, with nothing
/// left out: the list is of every object it holds, each is released in turn, and
/// what that frees is what is freed.
pub proof fn law_a_reclaimed_process_lets_go_of_its_memory(
    v: ExecView,
    w: ExecView,
    owner: ObjectId,
    freed: Seq<FrameOp>,
    i: int,
)
    requires
        memory_let_go(v, w, owner, freed),
        0 <= i < v.machine.memory.objects.len(),
    ensures
        ({
            let list = listed(v.machine.memory.objects, held_by(owner));
            &&& v.machine.memory.objects[i] matches Some(o) ==> (o.holders.contains(owner)
                ==> list.contains(o.object))
            &&& exists|oks: Seq<bool>|
                {
                    let end = #[trigger] release_steps(
                        ReleaseView {
                            memory: v.machine.memory,
                            dma: Seq::empty(),
                            frames: Seq::empty(),
                            destroyed: 0,
                        },
                        false,
                        owner,
                        list,
                        oks,
                        list.len() as int,
                    );
                    w.machine.memory == end.memory && freed == end.frames
                }
            &&& w.cpus == v.cpus
            &&& w.machine.channels == v.machine.channels
        }),
{
    if let Some(o) = v.machine.memory.objects[i] {
        if o.holders.contains(owner) {
            let k = choose|k: int| 0 <= k < o.holders.len() && o.holders[k] == owner;
            assert(o.holders[k] == owner);
            crate::memory::law_objects_are_listed_exactly(
                v.machine.memory.objects,
                owner,
                o.object,
            );
        }
    }
}

/// Every thread of a reclaimed process is reaped, in turn, and then its memory is
/// let go of.
pub proof fn law_a_reclaimed_process_has_no_threads_left<S: Space>(
    a: StartView<S>,
    b: StartView<S>,
    child: ObjectId,
    freed: Seq<FrameOp>,
    remains: Option<ProcessView<S>>,
)
    requires
        process_called(a.processes, child) is Some,
        reclaimed(a, b, child, freed, remains),
    ensures
        ({
            let ids = chosen(
                process_called(a.processes, child)->0.threads,
                slots::used::<ThreadId>(),
            );
            let start = ReapView { state: a.state, trace: a.trace };
            exists|m: ExecView, oks: Seq<bool>|
                {
                    &&& oks.len() == ids.len()
                    &&& m == reap_steps(start, ids, oks, ids.len() as int).state
                    &&& b.trace == (#[trigger] reap_steps(
                        start,
                        ids,
                        oks,
                        ids.len() as int,
                    )).trace
                    &&& #[trigger] memory_let_go(m, b.state, child, freed)
                }
        }),
{
    let p = process_called(a.processes, child)->0;
    let (m, oks) = choose|m: ExecView, oks: Seq<bool>| #[trigger]
        reaped(a.state, m, a.trace, b.trace, seated(p), oks) && memory_let_go(
            m,
            b.state,
            child,
            freed,
        );
    assert(reaped(a.state, m, a.trace, b.trace, seated(p), oks));
    let ids = chosen(p.threads, slots::used::<ThreadId>());
    let end = reap_steps(
        ReapView { state: a.state, trace: a.trace },
        ids,
        oks,
        ids.len() as int,
    );
    assert(memory_let_go(m, b.state, child, freed));
    assert(m == end.state);
}

/// Threads are reaped one after the other.
pub proof fn law_threads_are_reaped_in_turn(
    s: ReapView,
    ids: Seq<ThreadId>,
    oks: Seq<bool>,
    n: int,
)
    requires
        n > 0,
    ensures
        reap_steps(s, ids, oks, n) == reap_one(
            reap_steps(s, ids, oks, n - 1),
            ids[n - 1],
            oks[n - 1],
        ),
        reap_steps(s, ids, oks, 0) == s,
{
}

/// A process that starts with a message has it: where it is told to look there is
/// a fresh page, and the caller's bytes were copied there, before its thread was
/// made.
pub proof fn law_a_started_process_has_its_message<S: Space>(
    a: StartView<S>,
    b: StartView<S>,
    cpu: u32,
    correlation: u64,
    child: ObjectId,
    q: StartRequest,
    message: Result<(), KError>,
    user_pages: u64,
    kernel_pages: u64,
    log: StartLog,
    r: Result<u64, KError>,
)
    requires
        crate::process::processes_wf(a.processes),
        process_called(a.processes, child) is Some,
        q.message_len > 0,
        started(
            a,
            b,
            cpu,
            correlation,
            child,
            q,
            message,
            user_pages,
            kernel_pages,
            log,
            r,
        ),
        r is Ok,
    ensures
        q.message_len <= MAX_STARTUP_MESSAGE,
        message is Ok,
        ({
            let before = process_called(a.processes, child)->0.space.trace();
            let after = b.processes[process_slot(a.processes, child)]->0.space.trace();
            let n = before.len() as int;
            &&& before.is_prefix_of(after)
            &&& after.len() >= n + 2
            &&& after[n] matches SpaceOp::MapFresh { va, len, flags, failed } && va == q.message_va
                && len == FRAME_SIZE && flags.write && !flags.execute && failed is None
            &&& after[n + 1] matches SpaceOp::CopyIn { va, src, len, failed } && va == q.message_va
                && src == q.message_ptr && len == q.message_len && failed is None
        }),
{
    let before = process_called(a.processes, child)->0.space.trace();
    let after = b.processes[process_slot(a.processes, child)]->0.space.trace();
    let ops = delivering(q, log.mapped, log.copied);
    let asked = before + ops;
    let n = before.len() as int;
    assert(log.mapped is None && log.copied is None);
    assert(asked.is_prefix_of(after));
    assert(ops.len() == 2);
    assert(asked.len() == n + 2);
    assert(asked[n] == ops[0] && asked[n + 1] == ops[1]);
    assert(after[n] == asked[n] && after[n + 1] == asked[n + 1]);
    assert forall|k: int| 0 <= k < n implies before[k] == after[k] by {
        assert(asked[k] == before[k]);
        assert(after[k] == asked[k]);
    }
    assert(before =~= after.subrange(0, n));
}

/// Bytes are placed in the child's own space, after everything asked of it
/// before; a startup message likewise, and of it only its space changes.
pub proof fn law_placing_adds_to_what_was_asked<S: Space>(
    t: ProcessesView<S>,
    u: ProcessesView<S>,
    child: ObjectId,
    q: MapRequest,
    s: StartRequest,
    mapped: Option<KError>,
    copied: Option<KError>,
    sealed: Option<KError>,
    r: Result<u64, KError>,
    d: Result<(), KError>,
)
    requires
        process_called(t, child) is Some,
    ensures
        placed(t, u, child, q, mapped, copied, sealed, r) ==> (u[process_slot(
            t,
            child,
        )] matches Some(n) && n.space.trace() == process_called(t, child)->0.space.trace()
            + placing(q, mapped, copied, sealed) && n.id == child && n.handles == process_called(
            t,
            child,
        )->0.handles && n.threads == process_called(t, child)->0.threads && n.state
            == process_called(t, child)->0.state),
        delivered(t, u, child, s, mapped, copied, d) ==> (u[process_slot(
            t,
            child,
        )] matches Some(n) && n.space.trace() == process_called(t, child)->0.space.trace()
            + delivering(s, mapped, copied) && n.id == child && n.threads == process_called(
            t,
            child,
        )->0.threads) && (d is Ok <==> mapped is None && copied is None),
{
    slots::lemma_first(t, called::<S>(child));
}

} // verus!
