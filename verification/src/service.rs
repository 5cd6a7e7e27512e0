//! The thread-id service: dense small integers for worker threads.
//!
//! Workers ask the service for an id at startup and return it at exit; the
//! ids index the memory pools' per-thread cache arrays, so they must stay
//! dense and below [`crate::MAX_THREAD_NUM`]. The service itself sits
//! behind a local IPC socket; the host shell moves the request and response
//! values as bytes, and [`handle_request`] decides everything.

use vstd::prelude::*;

use crate::MAX_THREAD_NUM;

verus! {

/// A worker thread's identity, dense and small; `u32::MAX` marks a thread
/// that has not entered yet.
#[derive(Clone, Copy, Debug, PartialEq, Eq, Structural)]
pub struct ThreadId {
    pub id: u32,
}

impl ThreadId {
    /// An identity that is not yet assigned.
    pub fn new() -> (r: Self)
        ensures
            r.id == u32::MAX,
            !r.spec_valid(),
    {
        ThreadId { id: u32::MAX }
    }

    pub open spec fn spec_valid(&self) -> bool {
        self.id != u32::MAX
    }

    /// Records the id the service assigned.
    pub fn set(&mut self, id: u32)
        ensures
            final(self).id == id,
    {
        self.id = id;
    }

    pub fn get(&self) -> (r: u32)
        ensures
            r == self.id,
    {
        self.id
    }

    pub fn is_valid(&self) -> (r: bool)
        ensures
            r == self.spec_valid(),
    {
        self.id != u32::MAX
    }
}

/// What a client can ask the service.
#[derive(Clone, Copy, Debug, PartialEq, Eq, Structural)]
pub enum Request {
    ThreadEnter,
    ThreadExit { thread_id: u32 },
}

/// A file handle moved over the control socket.
#[derive(Clone, Copy, Debug, PartialEq, Eq, Structural)]
pub struct OwnedFd {
    pub fd: u32,
}

/// The payload of a successful response.
#[derive(Clone, Copy, Debug, PartialEq, Eq, Structural)]
pub enum ResponseData {
    Empty,
    ThreadEnter { thread_id: u32 },
    FdCreate { fd: OwnedFd },
}

/// Failures the service reports.
#[derive(Clone, Copy, Debug, PartialEq, Eq, Structural)]
pub enum ServiceError {
    IoError,
    InvalidRequest,
    JsonParseError,
    Unknown,
}

/// One reply.
#[derive(Clone, Copy, Debug)]
pub struct Response {
    pub data: Result<ResponseData, ServiceError>,
}

/// The id allocator: a free bitmap walked round-robin, so freed ids are
/// reused.
pub struct ThreadIdAllocator {
    used: Vec<bool>,
    cursor: usize,
}

impl ThreadIdAllocator {
    pub closed spec fn spec_used(&self) -> Seq<bool> {
        self.used@
    }

    pub closed spec fn wf(&self) -> bool {
        self.used@.len() == MAX_THREAD_NUM && self.cursor < MAX_THREAD_NUM
    }

    /// All ids free.
    pub fn new() -> (r: Self)
        ensures
            r.wf(),
            forall|i: int| 0 <= i < MAX_THREAD_NUM ==> !r.spec_used()[i],
    {
        let mut used: Vec<bool> = Vec::new();
        let mut i: usize = 0;
        while i < MAX_THREAD_NUM
            invariant
                0 <= i <= MAX_THREAD_NUM,
                used@.len() == i,
                forall|j: int| 0 <= j < i ==> !used@[j],
            decreases MAX_THREAD_NUM - i,
        {
            used.push(false);
            i = i + 1;
        }
        ThreadIdAllocator { used, cursor: 0 }
    }

    /// Assigns the next free id round-robin; `None` exactly when every id
    /// is taken.
    pub fn next_id(&mut self) -> (r: Option<u32>)
        requires
            old(self).wf(),
        ensures
            final(self).wf(),
            match r {
                Some(id) => {
                    &&& (id as int) < MAX_THREAD_NUM
                    &&& !old(self).spec_used()[id as int]
                    &&& final(self).spec_used() == old(self).spec_used().update(id as int, true)
                },
                None => {
                    &&& final(self).spec_used() == old(self).spec_used()
                    &&& forall|i: int| 0 <= i < MAX_THREAD_NUM ==> old(self).spec_used()[i]
                },
            },
    {
        let mut tries: usize = 0;
        let mut cur = self.cursor;
        while tries < MAX_THREAD_NUM
            invariant
                old(self).wf(),
                self.used@ == old(self).used@,
                self.cursor == old(self).cursor,
                cur < MAX_THREAD_NUM,
                0 <= tries <= MAX_THREAD_NUM,
                forall|t: int|
                    #![trigger old(self).spec_used()[(old(self).spec_cursor() + t) as int % (
                    MAX_THREAD_NUM as int)]]
                    0 <= t < tries ==> old(self).spec_used()[(old(self).spec_cursor() + t) as int
                        % (MAX_THREAD_NUM as int)],
                cur as int == (old(self).spec_cursor() + tries) as int % (MAX_THREAD_NUM as int),
            decreases MAX_THREAD_NUM - tries,
        {
            if !self.used[cur] {
                self.used.set(cur, true);
                self.cursor = if cur + 1 < MAX_THREAD_NUM {
                    cur + 1
                } else {
                    0
                };
                return Some(cur as u32);
            }
            cur = if cur + 1 < MAX_THREAD_NUM {
                cur + 1
            } else {
                0
            };
            tries = tries + 1;
        }
        proof {
            assert forall|i: int| 0 <= i < MAX_THREAD_NUM implies old(self).spec_used()[i] by {
                let c = old(self).spec_cursor() as int;
                let n = MAX_THREAD_NUM as int;
                let t = if i >= c {
                    i - c
                } else {
                    i + n - c
                };
                assert(0 <= t < n);
                assert((c + t) % n == i) by (nonlinear_arith)
                    requires
                        0 <= c < n,
                        0 <= t < n,
                        t == if i >= c {
                            i - c
                        } else {
                            i + n - c
                        },
                        0 <= i < n,
                ;
                assert(old(self).spec_used()[(c + t) as int % n]);
            }
        }
        None
    }

    pub closed spec fn spec_cursor(&self) -> usize {
        self.cursor
    }

    /// Returns an id to the pool.
    pub fn free(&mut self, id: u32)
        requires
            old(self).wf(),
            (id as int) < MAX_THREAD_NUM,
        ensures
            final(self).wf(),
            final(self).spec_used() == old(self).spec_used().update(id as int, false),
    {
        self.used.set(id as usize, false);
    }
}

/// The service's whole protocol: a `ThreadEnter` assigns the next free id
/// (or reports exhaustion), a `ThreadExit` frees a valid id and answers
/// nothing; an exit with an out-of-range id is an invalid request.
pub fn handle_request(alloc: &mut ThreadIdAllocator, req: Request) -> (r: Response)
    requires
        old(alloc).wf(),
    ensures
        final(alloc).wf(),
        match req {
            Request::ThreadEnter => match r.data {
                Ok(d) => {
                    &&& d matches ResponseData::ThreadEnter { thread_id } && {
                        &&& (thread_id as int) < MAX_THREAD_NUM
                        &&& !old(alloc).spec_used()[thread_id as int]
                        &&& final(alloc).spec_used() == old(alloc).spec_used().update(
                            thread_id as int,
                            true,
                        )
                    }
                },
                Err(e) => e == ServiceError::Unknown && final(alloc).spec_used() == old(
                    alloc,
                ).spec_used() && (forall|i: int|
                    0 <= i < MAX_THREAD_NUM ==> old(alloc).spec_used()[i]),
            },
            Request::ThreadExit { thread_id } => {
                if (thread_id as int) < MAX_THREAD_NUM {
                    &&& r.data == Ok::<ResponseData, ServiceError>(ResponseData::Empty)
                    &&& final(alloc).spec_used() == old(alloc).spec_used().update(
                        thread_id as int,
                        false,
                    )
                } else {
                    &&& r.data == Err::<ResponseData, ServiceError>(ServiceError::InvalidRequest)
                    &&& final(alloc).spec_used() == old(alloc).spec_used()
                }
            },
        },
{
    match req {
        Request::ThreadEnter => match alloc.next_id() {
            Some(id) => Response { data: Ok(ResponseData::ThreadEnter { thread_id: id }) },
            None => Response { data: Err(ServiceError::Unknown) },
        },
        Request::ThreadExit { thread_id } => {
            if (thread_id as usize) < MAX_THREAD_NUM {
                alloc.free(thread_id);
                Response { data: Ok(ResponseData::Empty) }
            } else {
                Response { data: Err(ServiceError::InvalidRequest) }
            }
        },
    }
}

} // verus!
