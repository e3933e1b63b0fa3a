//! The manager of the worker pool: which workers are free, which are busy with what,
//! and which directives wait for a worker.
use vstd::prelude::*;
use std::collections::VecDeque;
use std::collections::HashMap;
use crate::messages::MasterMessage;

verus! {

broadcast use vstd::std_specs::hash::group_hash_axioms;

/// The port on which workers listen for directives.
pub const SOCKET_ADDR: u16 = 7000;

/// The kind of work a worker was last given.
#[derive(Clone, Copy, PartialEq, Eq, Debug, Hash, Structural)]
pub enum WorkerType {
    Unassigned,
    Mapper,
    Shuffler,
    Reducer,
}

/// A worker node: its IPv4 address (as a number) and the kind of work it was last given.
#[derive(Clone, Copy, PartialEq, Eq, Debug, Hash, Structural)]
pub struct Worker {
    pub assigned_type: WorkerType,
    pub ip_addr: u32,
}

/// The kind of work a directive gives.
pub open spec fn directive_type(m: MasterMessage) -> WorkerType {
    match m {
        MasterMessage::MapDirective { .. } => WorkerType::Mapper,
        MasterMessage::ReduceDirective { .. } => WorkerType::Reducer,
        MasterMessage::ShuffleDirective { .. } => WorkerType::Shuffler,
    }
}

pub fn directive_type_of(m: &MasterMessage) -> (t: WorkerType)
    ensures
        t == directive_type(*m),
{
    match m {
        MasterMessage::MapDirective { .. } => WorkerType::Mapper,
        MasterMessage::ReduceDirective { .. } => WorkerType::Reducer,
        MasterMessage::ShuffleDirective { .. } => WorkerType::Shuffler,
    }
}

/// The work the manager is asked to do.
pub enum Tasks {
    /// A worker at this address joins the pool.
    AddWorker { ip: u32 },
    /// A directive to hand to a worker.
    Allocate { message: MasterMessage },
    /// The worker at this address finished its directive.
    FreeWorker { ip: u32 },
}

/// What the manager decided on one task: the directive to send to a worker, if any,
/// and whether all handed out work is done.
pub struct ManagerStep {
    pub send: Option<(u32, MasterMessage)>,
    pub all_done: bool,
}

/// The worker pool: free workers in arrival order, busy workers by address,
/// and the directives that wait for a worker, oldest first.
pub struct Manager {
    free_pool: VecDeque<Worker>,
    assigned_set: HashMap<u32, WorkerType>,
    pub pending: VecDeque<MasterMessage>,
}

impl Manager {
    /// The free workers, in the order they became free.
    pub closed spec fn free(&self) -> Seq<Worker> {
        self.free_pool@
    }

    /// The directives that wait for a worker, oldest first.
    pub closed spec fn waiting(&self) -> Seq<MasterMessage> {
        self.pending@
    }

    /// The busy workers: address to kind of work.
    pub closed spec fn assigned(&self) -> Map<u32, WorkerType> {
        self.assigned_set@
    }

    /// Every worker is known once: no address is free twice, or both free and busy.
    pub open spec fn workers_unique(&self) -> bool {
        &&& forall|i: int, j: int|
            0 <= i < j < self.free().len() ==> #[trigger] self.free()[i].ip_addr
                != #[trigger] self.free()[j].ip_addr
        &&& forall|i: int|
            0 <= i < self.free().len() ==> !self.assigned().contains_key(
                #[trigger] self.free()[i].ip_addr,
            )
    }

    /// The addresses of all workers the manager knows, free or busy.
    pub open spec fn known(&self) -> Set<u32> {
        Set::new(
            |ip: u32|
                (exists|i: int| 0 <= i < self.free().len() && #[trigger] self.free()[i].ip_addr == ip)
                    || self.assigned().contains_key(ip),
        )
    }

    /// No directive waits while a worker is free.
    pub open spec fn no_idle_while_pending(&self) -> bool {
        self.waiting().len() > 0 ==> self.free().len() == 0
    }

    pub fn new() -> (m: Manager)
        ensures
            m.free() == Seq::<Worker>::empty(),
            m.assigned() == Map::<u32, WorkerType>::empty(),
            m.waiting() == Seq::<MasterMessage>::empty(),
            m.assigned().dom().finite(),
    {
        let m = Manager { free_pool: VecDeque::new(), assigned_set: HashMap::new(), pending: VecDeque::new() };
        assert(m.assigned() =~= Map::<u32, WorkerType>::empty());
        m
    }

    /// A worker joins the free pool, with no work given yet.
    pub fn add_worker(&mut self, addr: u32)
        ensures
            final(self).free() == old(self).free().push(
                Worker { assigned_type: WorkerType::Unassigned, ip_addr: addr },
            ),
            final(self).assigned() == old(self).assigned(),
            final(self).waiting() == old(self).waiting(),
            final(self).known() == old(self).known().insert(addr),
            old(self).workers_unique() && !old(self).known().contains(addr)
                ==> final(self).workers_unique(),
            old(self).waiting().len() == 0 ==> final(self).no_idle_while_pending(),
            final(self).assigned().dom().finite(),
            final(self).free().len() + final(self).assigned().dom().len() == old(self).free().len()
                + old(self).assigned().dom().len() + 1,
    {
        let ghost before = *old(self);
        self.free_pool.push_back(Worker { assigned_type: WorkerType::Unassigned, ip_addr: addr });
        proof {
            let n = before.free().len();
            assert(self.free()[n as int].ip_addr == addr);
            assert forall|ip: u32| self.known().contains(ip) <==> before.known().insert(addr).contains(ip) by {
                if exists|i: int| 0 <= i < self.free().len() && #[trigger] self.free()[i].ip_addr == ip {
                    let i = choose|i: int| 0 <= i < self.free().len() && #[trigger] self.free()[i].ip_addr == ip;
                    if i < n {
                        assert(before.free()[i].ip_addr == ip);
                    }
                }
                if exists|i: int| 0 <= i < before.free().len() && #[trigger] before.free()[i].ip_addr == ip {
                    let i = choose|i: int| 0 <= i < before.free().len() && #[trigger] before.free()[i].ip_addr == ip;
                    assert(self.free()[i].ip_addr == ip);
                }
            }
            assert(self.known() =~= before.known().insert(addr));
            if before.workers_unique() && !before.known().contains(addr) {
                assert forall|i: int| 0 <= i < n implies #[trigger] before.free()[i].ip_addr != addr by {
                    if before.free()[i].ip_addr == addr {
                        assert(before.known().contains(addr));
                    }
                }
                assert forall|i: int, j: int| 0 <= i < j < self.free().len() implies #[trigger] self.free()[i].ip_addr
                    != #[trigger] self.free()[j].ip_addr by {
                    assert(self.free()[i] == before.free()[i]);
                    if j < n {
                        assert(self.free()[j] == before.free()[j]);
                    }
                }
                assert forall|i: int| 0 <= i < self.free().len() implies !self.assigned().contains_key(
                    #[trigger] self.free()[i].ip_addr,
                ) by {
                    if i < n {
                        assert(self.free()[i] == before.free()[i]);
                    }
                }
            }
        }
    }

    /// Records that the worker at `ip` now does work of kind `t`.
    fn assign(&mut self, ip: u32, t: WorkerType)
        ensures
            final(self).assigned() == old(self).assigned().insert(ip, t),
            final(self).free() == old(self).free(),
            final(self).waiting() == old(self).waiting(),
    {
        self.assigned_set.insert(ip, t);
    }

    /// Hands `message` to the longest free worker, or queues it when no worker is free.
    /// The result is the address to send the directive to, with the directive.
    pub fn allocate(&mut self, message: MasterMessage) -> (sent: Option<(u32, MasterMessage)>)
        ensures
            old(self).free().len() == 0 ==> {
                &&& sent is None
                &&& final(self).waiting() == old(self).waiting().push(message)
                &&& final(self).free() == old(self).free()
                &&& final(self).assigned() == old(self).assigned()
            },
            old(self).free().len() > 0 ==> {
                &&& sent == Some((old(self).free()[0].ip_addr, message))
                &&& final(self).waiting() == old(self).waiting()
                &&& final(self).free() == old(self).free().drop_first()
                &&& final(self).assigned() == old(self).assigned().insert(
                    old(self).free()[0].ip_addr,
                    directive_type(message),
                )
            },
            final(self).known() == old(self).known(),
            old(self).workers_unique() ==> final(self).workers_unique(),
            old(self).no_idle_while_pending() ==> final(self).no_idle_while_pending(),
            final(self).assigned().dom().finite(),
            old(self).workers_unique() ==> final(self).free().len() + final(self).assigned().dom().len()
                == old(self).free().len() + old(self).assigned().dom().len(),
    {
        let ghost before = *old(self);
        match self.free_pool.pop_front() {
            None => {
                self.pending.push_back(message);
                assert(self.known() =~= before.known());
                None
            },
            Some(worker) => {
                let t = directive_type_of(&message);
                self.assign(worker.ip_addr, t);
                proof {
                    let w = worker.ip_addr;
                    assert(before.free()[0].ip_addr == w);
                    assert forall|i: int| 0 <= i < self.free().len() implies #[trigger] self.free()[i]
                        == before.free()[i + 1] by {}
                    assert forall|ip: u32| self.known().contains(ip) <==> before.known().contains(ip) by {
                        if exists|i: int| 0 <= i < self.free().len() && #[trigger] self.free()[i].ip_addr == ip {
                            let i = choose|i: int| 0 <= i < self.free().len() && #[trigger] self.free()[i].ip_addr == ip;
                            assert(before.free()[i + 1].ip_addr == ip);
                        }
                        if exists|i: int| 0 <= i < before.free().len() && #[trigger] before.free()[i].ip_addr == ip {
                            let i = choose|i: int| 0 <= i < before.free().len() && #[trigger] before.free()[i].ip_addr == ip;
                            if i > 0 {
                                assert(self.free()[i - 1].ip_addr == ip);
                            }
                        }
                    }
                    assert(self.known() =~= before.known());
                    if before.workers_unique() {
                        assert forall|i: int, j: int| 0 <= i < j < self.free().len() implies #[trigger] self.free()[i].ip_addr
                            != #[trigger] self.free()[j].ip_addr by {
                            assert(before.free()[i + 1].ip_addr != before.free()[j + 1].ip_addr);
                        }
                        assert forall|i: int| 0 <= i < self.free().len() implies !self.assigned().contains_key(
                            #[trigger] self.free()[i].ip_addr,
                        ) by {
                            assert(before.free()[0].ip_addr != before.free()[i + 1].ip_addr);
                            assert(!before.assigned().contains_key(before.free()[i + 1].ip_addr));
                        }
                    }
                }
                proof {
                    if before.workers_unique() {
                        assert(!before.assigned().dom().contains(worker.ip_addr));
                        assert(self.assigned().dom() =~= before.assigned().dom().insert(worker.ip_addr));
                    }
                }
                Some((worker.ip_addr, message))
            },
        }
    }

    /// The worker at `ip` finished: it takes the oldest waiting directive, or joins the
    /// free pool when none waits. Nothing happens for an address that is not busy.
    pub fn worker_done(&mut self, ip: u32) -> (sent: Option<(u32, MasterMessage)>)
        ensures
            !old(self).assigned().contains_key(ip) ==> {
                &&& sent is None
                &&& final(self).waiting() == old(self).waiting()
                &&& final(self).free() == old(self).free()
                &&& final(self).assigned() == old(self).assigned()
            },
            old(self).assigned().contains_key(ip) && old(self).waiting().len() > 0 ==> {
                &&& sent == Some((ip, old(self).waiting()[0]))
                &&& final(self).waiting() == old(self).waiting().drop_first()
                &&& final(self).free() == old(self).free()
                &&& final(self).assigned() == old(self).assigned().insert(
                    ip,
                    directive_type(old(self).waiting()[0]),
                )
            },
            old(self).assigned().contains_key(ip) && old(self).waiting().len() == 0 ==> {
                &&& sent is None
                &&& final(self).waiting() == old(self).waiting()
                &&& final(self).free() == old(self).free().push(
                    Worker { assigned_type: old(self).assigned()[ip], ip_addr: ip },
                )
                &&& final(self).assigned() == old(self).assigned().remove(ip)
            },
            final(self).known() == old(self).known(),
            old(self).workers_unique() ==> final(self).workers_unique(),
            old(self).no_idle_while_pending() ==> final(self).no_idle_while_pending(),
            final(self).assigned().dom().finite(),
            final(self).free().len() + final(self).assigned().dom().len() == old(self).free().len()
                + old(self).assigned().dom().len(),
    {
        let ghost before = *old(self);
        let removed = self.assigned_set.remove(&ip);
        let wtype = match removed {
            None => {
                assert(self.assigned() =~= before.assigned());
                assert(self.known() =~= before.known());
                return None;
            },
            Some(w) => w,
        };
        let wip = ip;
        assert(before.assigned().contains_key(ip) && before.assigned()[ip] == wtype);
        match self.pending.pop_front() {
            Some(m) => {
                let t = directive_type_of(&m);
                self.assign(ip, t);
                assert(before.assigned().remove(ip).insert(ip, t) =~= before.assigned().insert(ip, t));
                assert(self.known() =~= before.known());
                proof {
                    assert(self.assigned().dom() =~= before.assigned().dom());
                }
                Some((ip, m))
            },
            None => {
                self.free_pool.push_back(Worker { assigned_type: wtype, ip_addr: wip });
                proof {
                    let n = before.free().len();
                    assert(self.free()[n as int].ip_addr == ip);
                    assert forall|x: u32| self.known().contains(x) <==> before.known().contains(x) by {
                        if exists|i: int| 0 <= i < self.free().len() && #[trigger] self.free()[i].ip_addr == x {
                            let i = choose|i: int| 0 <= i < self.free().len() && #[trigger] self.free()[i].ip_addr == x;
                            if i < n {
                                assert(before.free()[i].ip_addr == x);
                            }
                        }
                        if exists|i: int| 0 <= i < before.free().len() && #[trigger] before.free()[i].ip_addr == x {
                            let i = choose|i: int| 0 <= i < before.free().len() && #[trigger] before.free()[i].ip_addr == x;
                            assert(self.free()[i].ip_addr == x);
                        }
                    }
                    assert(self.known() =~= before.known());
                    if before.workers_unique() {
                        assert forall|i: int, j: int| 0 <= i < j < self.free().len() implies #[trigger] self.free()[i].ip_addr
                            != #[trigger] self.free()[j].ip_addr by {
                            assert(self.free()[i] == before.free()[i]);
                            if j < n {
                                assert(self.free()[j] == before.free()[j]);
                            } else {
                                assert(!before.assigned().contains_key(before.free()[i].ip_addr));
                            }
                        }
                        assert forall|i: int| 0 <= i < self.free().len() implies !self.assigned().contains_key(
                            #[trigger] self.free()[i].ip_addr,
                        ) by {
                            if i < n {
                                assert(self.free()[i] == before.free()[i]);
                                assert(!before.assigned().contains_key(before.free()[i].ip_addr));
                            }
                        }
                    }
                    assert(self.assigned().dom() =~= before.assigned().dom().remove(ip));
                }
                None
            },
        }
    }

    /// No directive waits and no worker is busy.
    pub fn tasks_done(&self) -> (done: bool)
        ensures
            done == (self.waiting().len() == 0 && self.assigned() == Map::<u32, WorkerType>::empty()),
    {
        let done = self.pending.len() == 0 && self.assigned_set.is_empty();
        proof {
            if self.assigned_set@.is_empty() {
                assert(self.assigned() =~= Map::<u32, WorkerType>::empty());
            }
        }
        done
    }

    /// Carries out one task: adding a worker, allocating a directive, or freeing a worker.
    /// After a worker is freed, `all_done` tells whether all handed out work is done.
    pub fn handle(&mut self, task: Tasks) -> (step: ManagerStep)
        ensures
            final(self).assigned().dom().finite(),
            match task {
                Tasks::AddWorker { ip } => {
                    &&& step.send is None
                    &&& !step.all_done
                    &&& final(self).free() == old(self).free().push(
                        Worker { assigned_type: WorkerType::Unassigned, ip_addr: ip },
                    )
                    &&& final(self).assigned() == old(self).assigned()
                    &&& final(self).waiting() == old(self).waiting()
                },
                Tasks::Allocate { message } => {
                    &&& !step.all_done
                    &&& (old(self).free().len() == 0 ==> step.send is None
                        && final(self).waiting() == old(self).waiting().push(message))
                    &&& (old(self).free().len() > 0 ==> step.send == Some(
                        (old(self).free()[0].ip_addr, message),
                    ) && final(self).assigned() == old(self).assigned().insert(
                        old(self).free()[0].ip_addr,
                        directive_type(message),
                    ) && final(self).free() == old(self).free().drop_first()
                        && final(self).waiting() == old(self).waiting())
                    &&& (old(self).free().len() == 0 ==> final(self).free() == old(self).free()
                        && final(self).assigned() == old(self).assigned())
                },
                Tasks::FreeWorker { ip } => {
                    &&& step.all_done == (final(self).waiting().len() == 0 && final(self).assigned()
                        == Map::<u32, WorkerType>::empty())
                    &&& (old(self).assigned().contains_key(ip) && old(self).waiting().len() > 0
                        ==> step.send == Some((ip, old(self).waiting()[0]))
                        && final(self).waiting() == old(self).waiting().drop_first()
                        && final(self).free() == old(self).free()
                        && final(self).assigned() == old(self).assigned().insert(
                        ip,
                        directive_type(old(self).waiting()[0]),
                    ))
                    &&& (old(self).assigned().contains_key(ip) && old(self).waiting().len() == 0
                        ==> step.send is None && final(self).waiting() == old(self).waiting()
                        && final(self).free() == old(self).free().push(
                        Worker { assigned_type: old(self).assigned()[ip], ip_addr: ip },
                    ) && final(self).assigned() == old(self).assigned().remove(ip))
                    &&& (!old(self).assigned().contains_key(ip) ==> step.send is None
                        && final(self).waiting() == old(self).waiting() && final(self).free()
                        == old(self).free() && final(self).assigned() == old(self).assigned())
                },
            },
    {
        match task {
            Tasks::AddWorker { ip } => {
                self.add_worker(ip);
                ManagerStep { send: None, all_done: false }
            },
            Tasks::Allocate { message } => {
                let send = self.allocate(message);
                ManagerStep { send, all_done: false }
            },
            Tasks::FreeWorker { ip } => {
                let send = self.worker_done(ip);
                let all_done = self.tasks_done();
                ManagerStep { send, all_done }
            },
        }
    }
}

} // verus!
