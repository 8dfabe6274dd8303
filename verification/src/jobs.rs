//! Background jobs: a failure type, the context a job handler gets, the queue interface
//! the host plugs a broker into, the default in-memory FIFO queue and the payload of
//! interval (cron) jobs.
use vstd::prelude::*;
use std::collections::VecDeque;
use vstd::std_specs::convert::FromSpecImpl;
use crate::gql::value::{FromValue, IntoValue, Json, Value, json_i64};

verus! {

/// Why a job failed.
pub struct JobError(pub String);

impl JobError {
    pub fn new(msg: &str) -> (e: JobError)
        ensures
            e.0@ == msg@,
    {
        JobError(msg.to_string())
    }
}

impl From<String> for JobError {
    fn from(s: String) -> (e: JobError) {
        JobError(s)
    }
}

impl FromSpecImpl<String> for JobError {
    open spec fn obeys_from_spec() -> bool {
        true
    }

    open spec fn from_spec(v: String) -> JobError {
        JobError(v)
    }
}

/// What a job handler is given: for now, the job's name.
pub struct JobCtx {
    name: String,
}

impl JobCtx {
    pub fn new(name: &str) -> (c: JobCtx)
        ensures
            c.name()@ == name@,
    {
        JobCtx { name: name.to_string() }
    }

    pub closed spec fn name(&self) -> String {
        self.name
    }

    /// The name of the running job.
    pub fn job(&self) -> (r: &str)
        ensures
            r@ == self.name()@,
    {
        self.name.as_str()
    }
}

/// What a job handler returns: `Ok(())`, or why it failed (the worker logs it).
pub type JobResult = Result<(), JobError>;

/// A background job: a typed payload (written to and read from the queue as JSON), a name
/// that routes it to its handler, and the handler.  The job macro implements it.
pub trait Job {
    type Payload: IntoValue + FromValue;

    /// The job's name (the function's name; stable across processes).
    const NAME: &'static str;

    fn run(ctx: &JobCtx, payload: Self::Payload) -> JobResult;
}

/// The job dispatcher the platform declaration generates: decodes the payload of the job
/// with this name and runs it; `None` for a name no job has.
pub type JobDispatch = fn(&str, &JobCtx, &str) -> Option<JobResult>;

/// A queue backend supplied by the host (a broker client, or the in-memory queue): jobs
/// are published as `(name, payload JSON)` and pulled by the worker in order.
pub trait QueueExecutor {
    fn publish(&mut self, job: &str, payload_json: &str);

    fn next(&mut self) -> (String, String);
}

/// The default queue: first in, first out, in memory.
pub struct MemQueue {
    inner: VecDeque<(String, String)>,
}

impl MemQueue {
    pub fn new() -> (q: MemQueue)
        ensures
            q.items().len() == 0,
    {
        let q = MemQueue { inner: VecDeque::new() };
        proof {
            assert(q.items() =~= Seq::<(Seq<char>, Seq<char>)>::empty());
        }
        q
    }

    /// The queued `(name, payload)` pairs, oldest first.
    pub closed spec fn items(&self) -> Seq<(Seq<char>, Seq<char>)> {
        Seq::new(self.inner@.len(), |i: int| (self.inner@[i].0@, self.inner@[i].1@))
    }

    /// Appends a job at the back.
    pub fn publish(&mut self, job: &str, payload_json: &str)
        ensures
            final(self).items() == old(self).items().push((job@, payload_json@)),
    {
        let ghost before = self.items();
        self.inner.push_back((job.to_string(), payload_json.to_string()));
        proof {
            assert(self.items() =~= before.push((job@, payload_json@)));
        }
    }

    /// Takes the oldest job (the in-memory queue is only read when it holds one).
    pub fn next(&mut self) -> (r: (String, String))
        requires
            old(self).items().len() > 0,
        ensures
            (r.0@, r.1@) == old(self).items()[0],
            final(self).items() == old(self).items().drop_first(),
    {
        let ghost before = self.items();
        match self.inner.pop_front() {
            Some(item) => {
                proof {
                    assert(self.items() =~= before.drop_first());
                }
                item
            },
            None => {
                proof {
                    assert(false);
                }
                (String::new(), String::new())
            },
        }
    }

    pub fn len(&self) -> (n: usize)
        ensures
            n == self.items().len(),
    {
        self.inner.len()
    }
}

/// An interval job: a job whose payload is the firing count, fired every `INTERVAL_SECS`
/// seconds by the scheduler.
pub trait CronJob: Job<Payload = CronTick> {
    const INTERVAL_SECS: u64;
}

/// What an interval job's handler is given: the number of the firing (1, 2, …).
pub struct CronTick {
    pub count: u64,
}

/// An interval firing travels through the queue as a bare JSON number (its count).
impl IntoValue for CronTick {
    open spec fn encoded(&self) -> Json {
        Json::Int((self.count as i64) as int)
    }

    fn into_value(&self) -> (v: Value) {
        Value::Int(self.count as i64)
    }
}

/// A count read back from the queue: negative or non-numeric payloads count as 0.
impl FromValue for CronTick {
    open spec fn decodes(j: Json, r: Self) -> bool {
        r.count == (if json_i64(j) < 0 { 0u64 } else { json_i64(j) as u64 })
    }

    fn from_value(v: &Value) -> (r: Self) {
        let n = i64::from_value(v);
        CronTick { count: if n < 0 { 0 } else { n as u64 } }
    }
}

} // verus!
