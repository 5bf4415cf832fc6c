//! Execution state of step-by-step pipelines: which steps are done, failed or
//! skipped, the result of each, and summaries over saved contexts.
//!
//! Times are microseconds since the Unix epoch, UTC.
use vstd::prelude::*;
use crate::value::Value;
use crate::strmap::StrMap;
use crate::debug::{nat_decimal, usize_to_decimal};
use crate::text::concat;

verus! {

/// Status of an execution context.
#[derive(Debug, Clone, PartialEq, Eq)]
pub enum ExecutionStatus {
    /// Created but not started.
    Created,
    /// Running.
    Running,
    /// Paused; can resume.
    Paused,
    /// Every step completed.
    Completed,
    /// Failed, with a reason.
    Failed(String),
    /// Cancelled by the user.
    Cancelled,
}

impl Default for ExecutionStatus {
    fn default() -> (r: ExecutionStatus)
        ensures
            r == ExecutionStatus::Created,
    {
        ExecutionStatus::Created
    }
}

/// Result of one step.
#[derive(Debug, Clone)]
pub struct StepResult {
    pub step: usize,
    pub success: bool,
    pub message: String,
    pub output: Value,
    pub duration_ms: u64,
    /// When the step ended.
    pub completed_at: i64,
}

/// One run of a pipeline.
#[derive(Debug)]
pub struct ExecutionContext {
    pub id: String,
    pub name: String,
    pub status: ExecutionStatus,
    pub total_steps: usize,
    pub completed_steps: Vec<usize>,
    pub failed_steps: Vec<usize>,
    pub skipped_steps: Vec<usize>,
    /// Results by step number (in decimal).
    pub step_results: StrMap<StepResult>,
    pub started_at: i64,
    pub updated_at: i64,
    pub artifacts: StrMap<Value>,
    pub parent_id: Option<String>,
    pub tags: Vec<String>,
}

/// `UUID::new_v4` rendered as text: a fresh random identifier. Nothing is
/// stated of it (it is random).
#[verifier::external_body]
fn fresh_id() -> (r: String) {
    uuid::Uuid::new_v4().to_string()
}


/// No step of `c` has been processed as `i`.
pub open spec fn is_open(c: ExecutionContext, i: usize) -> bool {
    !c.completed_steps@.contains(i) && !c.failed_steps@.contains(i) && !c.skipped_steps@.contains(i)
}

/// Every step has been processed (as many entries as steps).
pub open spec fn all_processed(c: ExecutionContext) -> bool {
    c.completed_steps@.len() + c.failed_steps@.len() + c.skipped_steps@.len() >= c.total_steps
}

/// The status of a context with a failed step once every step is processed.
pub open spec fn steps_failed(s: ExecutionStatus) -> bool {
    s is Failed && s->Failed_0@ == "One or more steps failed"@
}

/// The key of a step in the results.
pub open spec fn step_key(step: usize) -> Seq<char> {
    nat_decimal(step as nat)
}

/// `v` with `x` appended unless it holds it.
pub open spec fn with_index(v: Seq<usize>, x: usize) -> Seq<usize> {
    if v.contains(x) {
        v
    } else {
        v.push(x)
    }
}

/// Whether `v` holds `x`.
fn holds_index(v: &Vec<usize>, x: usize) -> (r: bool)
    ensures
        r == v@.contains(x),
{
    let mut i: usize = 0;
    while i < v.len()
        invariant
            i <= v@.len(),
            forall|j: int| 0 <= j < i ==> v@[j] != x,
        decreases v@.len() - i,
    {
        if v[i] == x {
            return true;
        }
        i = i + 1;
    }
    false
}

/// Append `x` to `v` unless it is there.
fn add_index(v: &mut Vec<usize>, x: usize)
    ensures
        final(v)@ == with_index(old(v)@, x),
{
    if !holds_index(v, x) {
        v.push(x);
    }
}

/// The fields of a context other than the step lists, results, status and time.
pub open spec fn same_identity(a: ExecutionContext, b: ExecutionContext) -> bool {
    &&& a.id == b.id
    &&& a.name == b.name
    &&& a.total_steps == b.total_steps
    &&& a.started_at == b.started_at
    &&& a.parent_id == b.parent_id
}

impl ExecutionContext {
    /// A new context named `name` with `total_steps` steps, identified by `id`
    /// and started at `now`.
    pub fn created(id: String, name: &str, total_steps: usize, now: i64) -> (c: ExecutionContext)
        ensures
            c.id == id,
            c.name@ == name@,
            c.status == ExecutionStatus::Created,
            c.total_steps == total_steps,
            c.completed_steps@.len() == 0,
            c.failed_steps@.len() == 0,
            c.skipped_steps@.len() == 0,
            c.step_results.model() == Map::<Seq<char>, StepResult>::empty(),
            c.started_at == now,
            c.updated_at == now,
            c.artifacts.model() == Map::<Seq<char>, Value>::empty(),
            c.parent_id is None,
            c.tags@.len() == 0,
    {
        ExecutionContext {
            id,
            name: String::from_str(name),
            status: ExecutionStatus::Created,
            total_steps,
            completed_steps: Vec::new(),
            failed_steps: Vec::new(),
            skipped_steps: Vec::new(),
            step_results: StrMap::new(),
            started_at: now,
            updated_at: now,
            artifacts: StrMap::new(),
            parent_id: None,
            tags: Vec::new(),
        }
    }

    /// A new context with a fresh random identifier, started now.
    pub fn new(name: &str, total_steps: usize) -> (c: ExecutionContext)
        ensures
            c.name@ == name@,
            c.status == ExecutionStatus::Created,
            c.total_steps == total_steps,
            c.completed_steps@.len() == 0,
            c.failed_steps@.len() == 0,
            c.skipped_steps@.len() == 0,
            c.step_results.model() == Map::<Seq<char>, StepResult>::empty(),
            c.started_at == c.updated_at,
            c.artifacts.model() == Map::<Seq<char>, Value>::empty(),
            c.parent_id is None,
            c.tags@.len() == 0,
    {
        let id = fresh_id();
        let now = crate::clock::utc_now_micros();
        ExecutionContext::created(id, name, total_steps, now)
    }

    /// The first step that is neither completed, failed nor skipped.
    pub fn next_step(&self) -> (r: Option<usize>)
        ensures
            match r {
                Some(i) => i < self.total_steps && is_open(*self, i) && forall|j: usize| j < i ==> !is_open(*self, j),
                None => forall|j: usize| j < self.total_steps ==> !is_open(*self, j),
            },
    {
        let mut i: usize = 0;
        while i < self.total_steps
            invariant
                i <= self.total_steps,
                forall|j: usize| j < i ==> !is_open(*self, j),
            decreases self.total_steps - i,
        {
            if !holds_index(&self.completed_steps, i) && !holds_index(&self.failed_steps, i) && !holds_index(
                &self.skipped_steps,
                i,
            ) {
                return Some(i);
            }
            i = i + 1;
        }
        None
    }

    /// Every step has been processed: there are at least as many completed,
    /// failed and skipped entries together as steps.
    pub fn is_complete(&self) -> (r: bool)
        ensures
            r == all_processed(*self),
    {
        let a = self.completed_steps.len();
        let b = self.failed_steps.len();
        let c = self.skipped_steps.len();
        if a >= self.total_steps {
            return true;
        }
        let rest = self.total_steps - a;
        if b >= rest {
            return true;
        }
        c >= rest - b
    }

    /// Steps completed and steps in all, for the progress percentage.
    pub fn progress_fraction(&self) -> (r: (usize, usize))
        ensures
            r == (self.completed_steps@.len() as usize, self.total_steps),
    {
        (self.completed_steps.len(), self.total_steps)
    }

    /// Mark a step as running, at `now`.
    pub fn start_step_at(&mut self, step: usize, now: i64)
        ensures
            final(self).status == ExecutionStatus::Running,
            final(self).updated_at == now,
            same_identity(*final(self), *old(self)),
            final(self).completed_steps == old(self).completed_steps,
            final(self).failed_steps == old(self).failed_steps,
            final(self).skipped_steps == old(self).skipped_steps,
            final(self).step_results == old(self).step_results,
            final(self).artifacts == old(self).artifacts,
            final(self).tags == old(self).tags,
    {
        self.status = ExecutionStatus::Running;
        self.updated_at = now;
    }

    /// Mark a step as running, now.
    pub fn start_step(&mut self, step: usize)
        ensures
            final(self).status == ExecutionStatus::Running,
            same_identity(*final(self), *old(self)),
            final(self).completed_steps == old(self).completed_steps,
            final(self).failed_steps == old(self).failed_steps,
            final(self).skipped_steps == old(self).skipped_steps,
            final(self).step_results == old(self).step_results,
            final(self).artifacts == old(self).artifacts,
            final(self).tags == old(self).tags,
    {
        let now = crate::clock::utc_now_micros();
        self.start_step_at(step, now);
    }

    /// Record a completed step at `now`. Once every step is processed, the
    /// status becomes `Completed`, or `Failed` when some step failed.
    pub fn complete_step_at(&mut self, step: usize, result: StepResult, now: i64)
        ensures
            final(self).completed_steps@ == with_index(old(self).completed_steps@, step),
            final(self).failed_steps == old(self).failed_steps,
            final(self).skipped_steps == old(self).skipped_steps,
            final(self).step_results.model() == old(self).step_results.model().insert(step_key(step), result),
            final(self).updated_at == now,
            same_identity(*final(self), *old(self)),
            final(self).artifacts == old(self).artifacts,
            final(self).tags == old(self).tags,
            all_processed(*final(self)) ==> if old(self).failed_steps@.len() == 0 {
                final(self).status == ExecutionStatus::Completed
            } else {
                steps_failed(final(self).status)
            },
            !all_processed(*final(self)) ==> final(self).status == old(self).status,
    {
        add_index(&mut self.completed_steps, step);
        let key = usize_to_decimal(step);
        self.step_results.insert(key, result);
        self.updated_at = now;
        if self.is_complete() {
            self.status = if self.failed_steps.len() == 0 {
                ExecutionStatus::Completed
            } else {
                ExecutionStatus::Failed(String::from_str("One or more steps failed"))
            };
        }
    }

    /// Record a completed step, now.
    pub fn complete_step(&mut self, step: usize, result: StepResult)
        ensures
            final(self).completed_steps@ == with_index(old(self).completed_steps@, step),
            final(self).failed_steps == old(self).failed_steps,
            final(self).skipped_steps == old(self).skipped_steps,
            final(self).step_results.model() == old(self).step_results.model().insert(step_key(step), result),
            same_identity(*final(self), *old(self)),
            final(self).artifacts == old(self).artifacts,
            final(self).tags == old(self).tags,
            all_processed(*final(self)) ==> if old(self).failed_steps@.len() == 0 {
                final(self).status == ExecutionStatus::Completed
            } else {
                steps_failed(final(self).status)
            },
            !all_processed(*final(self)) ==> final(self).status == old(self).status,
    {
        let now = crate::clock::utc_now_micros();
        self.complete_step_at(step, result, now);
    }

    /// Record a failed step at `now`. Once every step is processed, the
    /// status becomes `Failed`.
    pub fn fail_step_at(&mut self, step: usize, error: &str, result: StepResult, now: i64)
        ensures
            final(self).failed_steps@ == with_index(old(self).failed_steps@, step),
            final(self).completed_steps == old(self).completed_steps,
            final(self).skipped_steps == old(self).skipped_steps,
            final(self).step_results.model() == old(self).step_results.model().insert(step_key(step), result),
            final(self).updated_at == now,
            same_identity(*final(self), *old(self)),
            final(self).artifacts == old(self).artifacts,
            final(self).tags == old(self).tags,
            all_processed(*final(self)) ==> steps_failed(final(self).status),
            !all_processed(*final(self)) ==> final(self).status == old(self).status,
    {
        add_index(&mut self.failed_steps, step);
        let key = usize_to_decimal(step);
        self.step_results.insert(key, result);
        self.updated_at = now;
        if self.is_complete() {
            self.status = ExecutionStatus::Failed(String::from_str("One or more steps failed"));
        }
    }

    /// Record a failed step, now.
    pub fn fail_step(&mut self, step: usize, error: &str, result: StepResult)
        ensures
            final(self).failed_steps@ == with_index(old(self).failed_steps@, step),
            final(self).completed_steps == old(self).completed_steps,
            final(self).skipped_steps == old(self).skipped_steps,
            final(self).step_results.model() == old(self).step_results.model().insert(step_key(step), result),
            same_identity(*final(self), *old(self)),
            final(self).artifacts == old(self).artifacts,
            final(self).tags == old(self).tags,
            all_processed(*final(self)) ==> steps_failed(final(self).status),
            !all_processed(*final(self)) ==> final(self).status == old(self).status,
    {
        let now = crate::clock::utc_now_micros();
        self.fail_step_at(step, error, result, now);
    }

    /// Record a skipped step at `now`, with a result that says why. The
    /// status does not change.
    pub fn skip_step_at(&mut self, step: usize, reason: &str, now: i64)
        ensures
            final(self).skipped_steps@ == with_index(old(self).skipped_steps@, step),
            final(self).completed_steps == old(self).completed_steps,
            final(self).failed_steps == old(self).failed_steps,
            final(self).step_results.model().dom() == old(self).step_results.model().dom().insert(step_key(step)),
            forall|k: Seq<char>| k != step_key(step) ==> #[trigger] final(self).step_results.model().get(k) == old(
                self,
            ).step_results.model().get(k),
            ({
                let r = final(self).step_results.model()[step_key(step)];
                &&& r.step == step
                &&& !r.success
                &&& r.message@ == "Skipped: "@ + reason@
                &&& r.output == Value::Null
                &&& r.duration_ms == 0
                &&& r.completed_at == now
            }),
            final(self).updated_at == now,
            final(self).status == old(self).status,
            same_identity(*final(self), *old(self)),
            final(self).artifacts == old(self).artifacts,
            final(self).tags == old(self).tags,
    {
        add_index(&mut self.skipped_steps, step);
        let result = StepResult {
            step,
            success: false,
            message: concat("Skipped: ", reason),
            output: Value::Null,
            duration_ms: 0,
            completed_at: now,
        };
        let key = usize_to_decimal(step);
        self.step_results.insert(key, result);
        self.updated_at = now;
    }

    /// Record a skipped step, now.
    pub fn skip_step(&mut self, step: usize, reason: &str)
        ensures
            final(self).skipped_steps@ == with_index(old(self).skipped_steps@, step),
            final(self).completed_steps == old(self).completed_steps,
            final(self).failed_steps == old(self).failed_steps,
            final(self).step_results.model().dom() == old(self).step_results.model().dom().insert(step_key(step)),
            final(self).status == old(self).status,
            same_identity(*final(self), *old(self)),
            final(self).artifacts == old(self).artifacts,
            final(self).tags == old(self).tags,
    {
        let now = crate::clock::utc_now_micros();
        self.skip_step_at(step, reason, now);
    }

    /// Store an artifact under `key` at `now`.
    pub fn add_artifact_at(&mut self, key: &str, value: Value, now: i64)
        ensures
            final(self).artifacts.model() == old(self).artifacts.model().insert(key@, value),
            final(self).updated_at == now,
            same_identity(*final(self), *old(self)),
            final(self).status == old(self).status,
            final(self).completed_steps == old(self).completed_steps,
            final(self).failed_steps == old(self).failed_steps,
            final(self).skipped_steps == old(self).skipped_steps,
            final(self).step_results == old(self).step_results,
            final(self).tags == old(self).tags,
    {
        self.artifacts.insert(String::from_str(key), value);
        self.updated_at = now;
    }

    /// Store an artifact under `key`, now.
    pub fn add_artifact(&mut self, key: &str, value: Value)
        ensures
            final(self).artifacts.model() == old(self).artifacts.model().insert(key@, value),
            same_identity(*final(self), *old(self)),
            final(self).status == old(self).status,
            final(self).completed_steps == old(self).completed_steps,
            final(self).failed_steps == old(self).failed_steps,
            final(self).skipped_steps == old(self).skipped_steps,
            final(self).step_results == old(self).step_results,
            final(self).tags == old(self).tags,
    {
        let now = crate::clock::utc_now_micros();
        self.add_artifact_at(key, value, now);
    }

    /// Add a tag unless the context has it.
    pub fn add_tag(&mut self, tag: &str)
        ensures
            crate::engine::names_view(final(self).tags@) == if crate::engine::names_view(old(self).tags@).contains(tag@) {
                crate::engine::names_view(old(self).tags@)
            } else {
                crate::engine::names_view(old(self).tags@).push(tag@)
            },
            same_identity(*final(self), *old(self)),
            final(self).status == old(self).status,
            final(self).updated_at == old(self).updated_at,
            final(self).completed_steps == old(self).completed_steps,
            final(self).failed_steps == old(self).failed_steps,
            final(self).skipped_steps == old(self).skipped_steps,
            final(self).step_results == old(self).step_results,
            final(self).artifacts == old(self).artifacts,
    {
        if !crate::interface::contains_name(self.tags.as_slice(), tag) {
            let ghost before = self.tags@;
            self.tags.push(String::from_str(tag));
            proof {
                assert(crate::engine::names_view(self.tags@) =~= crate::engine::names_view(before).push(tag@));
            }
        }
    }
}

/// A step once recorded as completed, failed or skipped is never the next
/// step: `next_step` only returns steps that are open.
pub proof fn lemma_recorded_step_not_open(before: ExecutionContext, after: ExecutionContext, step: usize)
    requires
        after.completed_steps@ == with_index(before.completed_steps@, step) || after.failed_steps@ == with_index(
            before.failed_steps@,
            step,
        ) || after.skipped_steps@ == with_index(before.skipped_steps@, step),
    ensures
        !is_open(after, step),
{
    if !before.completed_steps@.contains(step) {
        assert(before.completed_steps@.push(step)[before.completed_steps@.len() as int] == step);
    }
    if !before.failed_steps@.contains(step) {
        assert(before.failed_steps@.push(step)[before.failed_steps@.len() as int] == step);
    }
    if !before.skipped_steps@.contains(step) {
        assert(before.skipped_steps@.push(step)[before.skipped_steps@.len() as int] == step);
    }
}

/// Recording the same step twice leaves the lists as recording it once.
pub proof fn lemma_recording_is_idempotent(v: Seq<usize>, step: usize)
    ensures
        with_index(with_index(v, step), step) == with_index(v, step),
{
    if !v.contains(step) {
        assert(v.push(step)[v.len() as int] == step);
    }
}

/// Record a successful step with `output`, taking `duration_ms`, now.
pub fn mark_step_complete(context: &mut ExecutionContext, step: usize, output: Value, duration_ms: u64)
    ensures
        final(context).completed_steps@ == with_index(old(context).completed_steps@, step),
        final(context).failed_steps == old(context).failed_steps,
        final(context).skipped_steps == old(context).skipped_steps,
        final(context).step_results.model().dom() == old(context).step_results.model().dom().insert(step_key(step)),
        ({
            let r = final(context).step_results.model()[step_key(step)];
            &&& r.step == step
            &&& r.success
            &&& r.message@ == "Completed"@
            &&& r.output == output
            &&& r.duration_ms == duration_ms
        }),
        same_identity(*final(context), *old(context)),
        all_processed(*final(context)) ==> if old(context).failed_steps@.len() == 0 {
            final(context).status == ExecutionStatus::Completed
        } else {
            steps_failed(final(context).status)
        },
        !all_processed(*final(context)) ==> final(context).status == old(context).status,
{
    let now = crate::clock::utc_now_micros();
    let result = StepResult {
        step,
        success: true,
        message: String::from_str("Completed"),
        output,
        duration_ms,
        completed_at: now,
    };
    context.complete_step_at(step, result, now);
}

/// Record a failed step with the message `error`, taking `duration_ms`, now.
pub fn mark_step_failed(context: &mut ExecutionContext, step: usize, error: &str, duration_ms: u64)
    ensures
        final(context).failed_steps@ == with_index(old(context).failed_steps@, step),
        final(context).completed_steps == old(context).completed_steps,
        final(context).skipped_steps == old(context).skipped_steps,
        final(context).step_results.model().dom() == old(context).step_results.model().dom().insert(step_key(step)),
        ({
            let r = final(context).step_results.model()[step_key(step)];
            &&& r.step == step
            &&& !r.success
            &&& r.message@ == error@
            &&& r.output == Value::Null
            &&& r.duration_ms == duration_ms
        }),
        same_identity(*final(context), *old(context)),
        all_processed(*final(context)) ==> steps_failed(final(context).status),
        !all_processed(*final(context)) ==> final(context).status == old(context).status,
{
    let now = crate::clock::utc_now_micros();
    let result = StepResult {
        step,
        success: false,
        message: String::from_str(error),
        output: Value::Null,
        duration_ms,
        completed_at: now,
    };
    context.fail_step_at(step, error, result, now);
}


// ───────────────────────────── checkpoints ─────────────────────────────

/// Errors of checkpoint management.
#[derive(Debug, Clone)]
pub enum StateError {
    IoError(String),
    SerializeError(String),
    DeserializeError(String),
    NotFound(String),
    InvalidState(String),
    PermissionDenied(String),
}

/// The text of an error.
pub open spec fn state_error_text(e: StateError) -> Seq<char> {
    match e {
        StateError::IoError(s) => "IO error: "@ + s@,
        StateError::SerializeError(s) => "Serialization error: "@ + s@,
        StateError::DeserializeError(s) => "Deserialization error: "@ + s@,
        StateError::NotFound(s) => "Context not found: "@ + s@,
        StateError::InvalidState(s) => "Invalid state: "@ + s@,
        StateError::PermissionDenied(s) => "Permission denied: "@ + s@,
    }
}

impl StateError {
    /// The text of this error, as it is displayed.
    pub fn message(&self) -> (r: String)
        ensures
            r@ == state_error_text(*self),
    {
        match self {
            StateError::IoError(s) => concat("IO error: ", s.as_str()),
            StateError::SerializeError(s) => concat("Serialization error: ", s.as_str()),
            StateError::DeserializeError(s) => concat("Deserialization error: ", s.as_str()),
            StateError::NotFound(s) => concat("Context not found: ", s.as_str()),
            StateError::InvalidState(s) => concat("Invalid state: ", s.as_str()),
            StateError::PermissionDenied(s) => concat("Permission denied: ", s.as_str()),
        }
    }
}

/// Number of contexts in each status.
#[derive(Debug, Clone)]
pub struct CheckpointStats {
    pub total: usize,
    pub created: usize,
    pub running: usize,
    pub paused: usize,
    pub completed: usize,
    pub failed: usize,
    pub cancelled: usize,
}

impl Default for CheckpointStats {
    fn default() -> (r: CheckpointStats)
        ensures
            r.total == 0 && r.created == 0 && r.running == 0 && r.paused == 0 && r.completed == 0 && r.failed == 0
                && r.cancelled == 0,
    {
        CheckpointStats { total: 0, created: 0, running: 0, paused: 0, completed: 0, failed: 0, cancelled: 0 }
    }
}

/// Number of contexts whose status satisfies `p`.
pub open spec fn count_status(cs: Seq<ExecutionContext>, p: spec_fn(ExecutionStatus) -> bool) -> nat
    decreases cs.len(),
{
    if cs.len() == 0 {
        0
    } else {
        count_status(cs.drop_last(), p) + if p(cs[cs.len() - 1].status) {
            1nat
        } else {
            0nat
        }
    }
}

proof fn lemma_count_status_bound(cs: Seq<ExecutionContext>, p: spec_fn(ExecutionStatus) -> bool)
    ensures
        count_status(cs, p) <= cs.len(),
    decreases cs.len(),
{
    if cs.len() > 0 {
        lemma_count_status_bound(cs.drop_last(), p);
    }
}

/// Saved contexts: where each is saved, by identifier.
#[derive(Debug)]
pub struct CheckpointManager {
    state_dir: String,
    id_map: StrMap<String>,
}

/// The identifier in a checkpoint file's stem: the text after its last `-`
/// (the whole stem when it has none).
pub open spec fn id_of_stem(stem: Seq<char>) -> Seq<char>
    decreases stem.len(),
{
    if stem.len() == 0 {
        stem
    } else if stem[stem.len() - 1] == '-' {
        Seq::empty()
    } else {
        id_of_stem(stem.drop_last()).push(stem[stem.len() - 1])
    }
}

/// A context that can be resumed: created, running or paused.
pub open spec fn resumable_status(s: ExecutionStatus) -> bool {
    s is Created || s is Running || s is Paused
}

/// Two statuses are equal: the same variant, and for a failure the same
/// reason.
pub open spec fn same_status(a: ExecutionStatus, b: ExecutionStatus) -> bool {
    match (a, b) {
        (ExecutionStatus::Created, ExecutionStatus::Created) => true,
        (ExecutionStatus::Running, ExecutionStatus::Running) => true,
        (ExecutionStatus::Paused, ExecutionStatus::Paused) => true,
        (ExecutionStatus::Completed, ExecutionStatus::Completed) => true,
        (ExecutionStatus::Failed(x), ExecutionStatus::Failed(y)) => x@ == y@,
        (ExecutionStatus::Cancelled, ExecutionStatus::Cancelled) => true,
        _ => false,
    }
}

/// The contexts named `name`.
pub open spec fn named(name: Seq<char>) -> spec_fn(ExecutionContext) -> bool {
    |c: ExecutionContext| c.name@ == name
}

/// The contexts whose status equals `status`.
pub open spec fn with_status(status: ExecutionStatus) -> spec_fn(ExecutionContext) -> bool {
    |c: ExecutionContext| same_status(c.status, status)
}

/// `==` on statuses.
fn status_matches(a: &ExecutionStatus, b: &ExecutionStatus) -> (r: bool)
    ensures
        r == same_status(*a, *b),
{
    match (a, b) {
        (ExecutionStatus::Created, ExecutionStatus::Created) => true,
        (ExecutionStatus::Running, ExecutionStatus::Running) => true,
        (ExecutionStatus::Paused, ExecutionStatus::Paused) => true,
        (ExecutionStatus::Completed, ExecutionStatus::Completed) => true,
        (ExecutionStatus::Failed(x), ExecutionStatus::Failed(y)) => crate::value::str_eq(x.as_str(), y.as_str()),
        (ExecutionStatus::Cancelled, ExecutionStatus::Cancelled) => true,
        _ => false,
    }
}

/// Exactly the created, running and paused contexts can be resumed, and
/// exactly the completed, failed and cancelled ones are finished.
pub proof fn lemma_status_classes(s: ExecutionStatus)
    ensures
        (s is Created || s is Running || s is Paused) ==> !finished_status(s),
        (s is Completed || s is Failed || s is Cancelled) ==> finished_status(s),
        s is Created ==> resumable_status(s),
        s is Running ==> resumable_status(s),
        s is Paused ==> resumable_status(s),
        s is Completed ==> !resumable_status(s),
        s is Failed ==> !resumable_status(s),
        s is Cancelled ==> !resumable_status(s),
{
}

/// A context that cleanup may remove: completed, cancelled or failed.
pub open spec fn finished_status(s: ExecutionStatus) -> bool {
    s is Completed || s is Cancelled || s is Failed
}

impl CheckpointManager {
    /// A manager of the checkpoints in `state_dir`, knowing none yet.
    pub fn with_dir(state_dir: &str) -> (m: CheckpointManager)
        ensures
            m.dir_view() == state_dir@,
            m.paths() == Map::<Seq<char>, String>::empty(),
    {
        CheckpointManager { state_dir: String::from_str(state_dir), id_map: StrMap::new() }
    }

    /// The checkpoint directory.
    pub closed spec fn dir_view(&self) -> Seq<char> {
        self.state_dir@
    }

    /// Where each known context is saved, by identifier.
    pub closed spec fn paths(&self) -> Map<Seq<char>, String> {
        self.id_map.model()
    }

    /// The checkpoint directory.
    pub fn state_dir(&self) -> (r: &str)
        ensures
            r@ == self.dir_view(),
    {
        self.state_dir.as_str()
    }

    /// Remember that context `id` is saved at `path`.
    pub fn record(&mut self, id: &str, path: String)
        ensures
            final(self).paths() == old(self).paths().insert(id@, path),
            final(self).dir_view() == old(self).dir_view(),
    {
        self.id_map.insert(String::from_str(id), path);
    }

    /// Forget every known context.
    pub fn clear(&mut self)
        ensures
            final(self).paths() == Map::<Seq<char>, String>::empty(),
            final(self).dir_view() == old(self).dir_view(),
    {
        self.id_map = StrMap::new();
    }

    /// Where context `id` is saved, if known.
    pub fn path_of(&self, id: &str) -> (r: Option<&String>)
        ensures
            r is None == !self.paths().contains_key(id@),
            r is Some ==> *r->0 == self.paths()[id@],
    {
        self.id_map.get(id)
    }

    /// Forget context `id`; returns whether it was known.
    pub fn forget(&mut self, id: &str) -> (found: bool)
        ensures
            found == old(self).paths().contains_key(id@),
            final(self).paths() == old(self).paths().remove(id@),
            final(self).dir_view() == old(self).dir_view(),
    {
        self.id_map.remove(id)
    }

    /// The known identifiers, each once.
    pub fn known_ids(&self) -> (r: Vec<String>)
        ensures
            forall|k: Seq<char>| #[trigger] crate::engine::names_view(r@).contains(k) <==> self.paths().contains_key(k),
    {
        let r = self.id_map.keys();
        proof {
            assert forall|k: Seq<char>| #[trigger] crate::engine::names_view(r@).contains(k) <==> self.paths().contains_key(k) by {
                crate::strmap::lemma_live_keys_contains(self.id_map.entries@, self.id_map.entries@.len() as int, k);
                crate::strmap::lemma_pairs_model_at(self.id_map.entries@, k);
                crate::strmap::lemma_pair_last_index(self.id_map.entries@, k);
                assert(crate::engine::names_view(r@) == crate::strmap::live_keys(self.id_map.entries@, self.id_map.entries@.len() as int));
                assert(self.paths() == self.id_map.model());
            }
        }
        r
    }

    /// A new context (see [`ExecutionContext::new`]).
    pub fn create_context(&self, name: &str, total_steps: usize) -> (c: ExecutionContext)
        ensures
            c.name@ == name@,
            c.status == ExecutionStatus::Created,
            c.total_steps == total_steps,
            c.completed_steps@.len() == 0,
            c.failed_steps@.len() == 0,
            c.skipped_steps@.len() == 0,
    {
        ExecutionContext::new(name, total_steps)
    }

    /// Summary of the listed contexts: how many in all and in each status.
    pub fn stats(&self, listed: &[ExecutionContext]) -> (r: CheckpointStats)
        ensures
            r.total == listed@.len(),
            r.created == count_status(listed@, |s: ExecutionStatus| s is Created),
            r.running == count_status(listed@, |s: ExecutionStatus| s is Running),
            r.paused == count_status(listed@, |s: ExecutionStatus| s is Paused),
            r.completed == count_status(listed@, |s: ExecutionStatus| s is Completed),
            r.failed == count_status(listed@, |s: ExecutionStatus| s is Failed),
            r.cancelled == count_status(listed@, |s: ExecutionStatus| s is Cancelled),
    {
        let mut stats = CheckpointStats::default();
        stats.total = listed.len();
        let mut i: usize = 0;
        while i < listed.len()
            invariant
                i <= listed@.len(),
                stats.total == listed@.len(),
                stats.created == count_status(listed@.take(i as int), |s: ExecutionStatus| s is Created),
                stats.running == count_status(listed@.take(i as int), |s: ExecutionStatus| s is Running),
                stats.paused == count_status(listed@.take(i as int), |s: ExecutionStatus| s is Paused),
                stats.completed == count_status(listed@.take(i as int), |s: ExecutionStatus| s is Completed),
                stats.failed == count_status(listed@.take(i as int), |s: ExecutionStatus| s is Failed),
                stats.cancelled == count_status(listed@.take(i as int), |s: ExecutionStatus| s is Cancelled),
            decreases listed@.len() - i,
        {
            proof {
                assert(listed@.take(i + 1).drop_last() =~= listed@.take(i as int));
                lemma_count_status_bound(listed@.take(i as int), |s: ExecutionStatus| s is Created);
                lemma_count_status_bound(listed@.take(i as int), |s: ExecutionStatus| s is Running);
                lemma_count_status_bound(listed@.take(i as int), |s: ExecutionStatus| s is Paused);
                lemma_count_status_bound(listed@.take(i as int), |s: ExecutionStatus| s is Completed);
                lemma_count_status_bound(listed@.take(i as int), |s: ExecutionStatus| s is Failed);
                lemma_count_status_bound(listed@.take(i as int), |s: ExecutionStatus| s is Cancelled);
            }
            match listed[i].status {
                ExecutionStatus::Created => stats.created = stats.created + 1,
                ExecutionStatus::Running => stats.running = stats.running + 1,
                ExecutionStatus::Paused => stats.paused = stats.paused + 1,
                ExecutionStatus::Completed => stats.completed = stats.completed + 1,
                ExecutionStatus::Failed(_) => stats.failed = stats.failed + 1,
                ExecutionStatus::Cancelled => stats.cancelled = stats.cancelled + 1,
            }
            i = i + 1;
        }
        proof {
            assert(listed@.take(listed@.len() as int) =~= listed@);
        }
        stats
    }

    /// The identifier in a checkpoint file's stem (see [`id_of_stem`]).
    pub fn id_from_stem(stem: &str) -> (r: String)
        ensures
            r@ == id_of_stem(stem@),
    {
        let cs = crate::levenshtein::chars_of(stem);
        let mut start: usize = cs.len();
        proof {
            assert(stem@.take(stem@.len() as int) =~= stem@);
            assert(stem@.subrange(stem@.len() as int, stem@.len() as int) =~= Seq::<char>::empty());
            assert(id_of_stem(stem@) =~= id_of_stem(stem@.take(start as int)) + stem@.subrange(start as int, stem@.len() as int));
        }
        while start > 0 && cs[start - 1] != '-'
            invariant
                cs@ == stem@,
                start <= cs@.len(),
                forall|j: int| start <= j < cs@.len() ==> cs@[j] != '-',
                id_of_stem(stem@) == id_of_stem(stem@.take(start as int)) + stem@.subrange(start as int, stem@.len() as int),
            decreases start,
        {
            proof {
                let t = stem@.take(start as int);
                assert(t.drop_last() =~= stem@.take(start - 1));
                assert(stem@.subrange(start - 1, stem@.len() as int) =~= seq![stem@[start - 1]] + stem@.subrange(
                    start as int,
                    stem@.len() as int,
                ));
            }
            start = start - 1;
        }
        proof {
            if start > 0 {
                assert(stem@.take(start as int)[start - 1] == '-');
            }
            assert(stem@.take(stem@.len() as int) =~= stem@);
        }
        let mut r = String::new();
        let mut i = start;
        while i < cs.len()
            invariant
                cs@ == stem@,
                start <= i <= cs@.len(),
                r@ == stem@.subrange(start as int, i as int),
            decreases cs@.len() - i,
        {
            crate::text::push_char(&mut r, cs[i]);
            proof {
                assert(r@ =~= stem@.subrange(start as int, i + 1));
            }
            i = i + 1;
        }
        proof {
            if start == 0 {
                assert(id_of_stem(stem@.take(0)) =~= Seq::<char>::empty());
            }
            assert(r@ =~= id_of_stem(stem@));
        }
        r
    }

    /// The context to resume among the listed ones: of those named `name`
    /// and created, running or paused, the one updated last (the later one
    /// in the list on a tie).
    pub fn resumable_in(listed: &[ExecutionContext], name: &str) -> (r: Option<usize>)
        ensures
            match r {
                Some(i) => {
                    &&& 0 <= i < listed@.len()
                    &&& listed@[i as int].name@ == name@
                    &&& resumable_status(listed@[i as int].status)
                    &&& forall|j: int| 0 <= j < listed@.len() && #[trigger] listed@[j].name@ == name@ && resumable_status(listed@[j].status)
                        ==> listed@[j].updated_at <= listed@[i as int].updated_at
                    &&& forall|j: int| i < j < listed@.len() && #[trigger] listed@[j].name@ == name@ && resumable_status(listed@[j].status)
                        ==> listed@[j].updated_at < listed@[i as int].updated_at
                },
                None => forall|j: int| 0 <= j < listed@.len() && #[trigger] listed@[j].name@ == name@ ==> !resumable_status(listed@[j].status),
            },
            (exists|j: int|
                0 <= j < listed@.len() && #[trigger] listed@[j].name@ == name@ && (listed@[j].status is Created
                    || listed@[j].status is Running || listed@[j].status is Paused)) ==> r is Some,
            r matches Some(i) ==> (listed@[i as int].status is Created || listed@[i as int].status is Running
                || listed@[i as int].status is Paused),
    {
        let mut best: Option<usize> = None;
        let mut i: usize = 0;
        while i < listed.len()
            invariant
                i <= listed@.len(),
                match best {
                    Some(b) => {
                        &&& b < i
                        &&& listed@[b as int].name@ == name@
                        &&& resumable_status(listed@[b as int].status)
                        &&& forall|j: int| 0 <= j < i && #[trigger] listed@[j].name@ == name@ && resumable_status(listed@[j].status)
                            ==> listed@[j].updated_at <= listed@[b as int].updated_at
                        &&& forall|j: int| b < j < i && #[trigger] listed@[j].name@ == name@ && resumable_status(listed@[j].status)
                            ==> listed@[j].updated_at < listed@[b as int].updated_at
                    },
                    None => forall|j: int| 0 <= j < i && #[trigger] listed@[j].name@ == name@ ==> !resumable_status(listed@[j].status),
                },
            decreases listed@.len() - i,
        {
            let c = &listed[i];
            let eligible = crate::value::str_eq(c.name.as_str(), name) && match c.status {
                ExecutionStatus::Created | ExecutionStatus::Running | ExecutionStatus::Paused => true,
                _ => false,
            };
            if eligible {
                match best {
                    Some(b) => {
                        if listed[b].updated_at <= c.updated_at {
                            best = Some(i);
                        }
                    },
                    None => {
                        best = Some(i);
                    },
                }
            }
            i = i + 1;
        }
        best
    }

    /// The listed contexts named `name`, in their listed order.
    pub fn named_in(listed: Vec<ExecutionContext>, name: &str) -> (r: Vec<ExecutionContext>)
        ensures
            r@ == listed@.filter(named(name@)),
    {
        let ghost all = listed@;
        let n = listed.len();
        let mut rest = listed;
        let mut out: Vec<ExecutionContext> = Vec::new();
        let mut i: usize = 0;
        while rest.len() > 0
            invariant
                i <= all.len(),
                all.len() == n,
                rest@ == all.skip(i as int),
                out@ == all.take(i as int).filter(named(name@)),
            decreases rest@.len(),
        {
            let c = rest.remove(0);
            proof {
                assert(all.take(i + 1).drop_last() =~= all.take(i as int));
                assert(all.take(i + 1).last() == c);
                assert(rest@ =~= all.skip(i + 1));
                reveal(Seq::filter);
                assert(all.take(i + 1).filter(named(name@)) == if (named(name@))(c) {
                    all.take(i as int).filter(named(name@)).push(c)
                } else {
                    all.take(i as int).filter(named(name@))
                });
            }
            if crate::value::str_eq(c.name.as_str(), name) {
                out.push(c);
            }
            i = i + 1;
        }
        proof {
            assert(all.take(i as int) =~= all);
        }
        out
    }

    /// The listed contexts whose status equals `status`, in their listed
    /// order.
    pub fn with_status_in(listed: Vec<ExecutionContext>, status: &ExecutionStatus) -> (r: Vec<ExecutionContext>)
        ensures
            r@ == listed@.filter(with_status(*status)),
    {
        let ghost all = listed@;
        let n = listed.len();
        let mut rest = listed;
        let mut out: Vec<ExecutionContext> = Vec::new();
        let mut i: usize = 0;
        while rest.len() > 0
            invariant
                i <= all.len(),
                all.len() == n,
                rest@ == all.skip(i as int),
                out@ == all.take(i as int).filter(with_status(*status)),
            decreases rest@.len(),
        {
            let c = rest.remove(0);
            proof {
                assert(all.take(i + 1).drop_last() =~= all.take(i as int));
                assert(all.take(i + 1).last() == c);
                assert(rest@ =~= all.skip(i + 1));
                reveal(Seq::filter);
                assert(all.take(i + 1).filter(with_status(*status)) == if (with_status(*status))(c) {
                    all.take(i as int).filter(with_status(*status)).push(c)
                } else {
                    all.take(i as int).filter(with_status(*status))
                });
            }
            if status_matches(&c.status, status) {
                out.push(c);
            }
            i = i + 1;
        }
        proof {
            assert(all.take(i as int) =~= all);
        }
        out
    }

    /// The identifiers of the listed contexts that cleanup removes: finished
    /// (completed, cancelled or failed) and last updated before `cutoff`.
    pub fn cleanup_targets(listed: &[ExecutionContext], cutoff: i64) -> (r: Vec<String>)
        ensures
            r@.len() <= listed@.len(),
            crate::engine::names_view(r@) == listed@.filter(
                |c: ExecutionContext| c.updated_at < cutoff && finished_status(c.status),
            ).map_values(|c: ExecutionContext| c.id@),
    {
        let mut r: Vec<String> = Vec::new();
        let mut i: usize = 0;
        while i < listed.len()
            invariant
                i <= listed@.len(),
                r@.len() <= i,
                crate::engine::names_view(r@) == listed@.take(i as int).filter(
                    |c: ExecutionContext| c.updated_at < cutoff && finished_status(c.status),
                ).map_values(|c: ExecutionContext| c.id@),
            decreases listed@.len() - i,
        {
            let c = &listed[i];
            let finished = match c.status {
                ExecutionStatus::Completed | ExecutionStatus::Cancelled | ExecutionStatus::Failed(_) => true,
                _ => false,
            };
            let ghost before = r@;
            proof {
                assert(listed@.take(i + 1).drop_last() =~= listed@.take(i as int));
                reveal(Seq::filter);
            }
            if c.updated_at < cutoff && finished {
                r.push(c.id.clone());
                proof {
                    assert(crate::engine::names_view(r@) =~= crate::engine::names_view(before).push(c.id@));
                }
            }
            i = i + 1;
        }
        proof {
            assert(listed@.take(listed@.len() as int) =~= listed@);
        }
        r
    }
}

} // verus!
