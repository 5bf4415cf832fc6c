//! Session state for skill execution history: which skills ran, in order,
//! and how each run ended.
use vstd::prelude::*;
use crate::value::Value;
use crate::strmap::StrMap;
use crate::text::{concat, push_char};
use crate::microgram::join5;
use crate::value::str_eq;

verus! {

/// One execution in the history.
#[derive(Debug, Clone)]
pub struct ExecutionEntry {
    pub skill_name: String,
    /// RFC 3339 timestamp of the start.
    pub timestamp: String,
    pub context: Option<String>,
    pub duration_ms: Option<u64>,
    /// "started", "completed" or "failed".
    pub status: String,
}

/// The history of a session, most recent execution last.
#[derive(Debug)]
pub struct SessionState {
    pub session_id: String,
    pub current_skill: String,
    pub execution_history: Vec<ExecutionEntry>,
    /// Further fields of the saved state, kept as they were.
    pub metadata: StrMap<Value>,
}

/// Errors of session operations.
#[derive(Debug, Clone)]
pub enum SessionError {
    NotFound(String),
    IoError(String),
    ParseError(String),
    SerializeError(String),
}

/// The text of an error.
pub open spec fn session_error_text(e: SessionError) -> Seq<char> {
    match e {
        SessionError::NotFound(s) => "Session file not found: "@ + s@,
        SessionError::IoError(s) => "IO error: "@ + s@,
        SessionError::ParseError(s) => "Parse error: "@ + s@,
        SessionError::SerializeError(s) => "Serialization error: "@ + s@,
    }
}

impl SessionError {
    /// The text of this error, as it is displayed.
    pub fn message(&self) -> (r: String)
        ensures
            r@ == session_error_text(*self),
    {
        match self {
            SessionError::NotFound(s) => concat("Session file not found: ", s.as_str()),
            SessionError::IoError(s) => concat("IO error: ", s.as_str()),
            SessionError::ParseError(s) => concat("Parse error: ", s.as_str()),
            SessionError::SerializeError(s) => concat("Serialization error: ", s.as_str()),
        }
    }
}

/// Status of an entry read from a file that gives none.
pub fn default_status() -> (r: String)
    ensures
        r@ == "completed"@,
{
    String::from_str("completed")
}

// ───────────────────────────── identifiers ─────────────────────────────

/// The lowercase hexadecimal digit of `d` (below 16).
pub open spec fn hex_digit(d: nat) -> char {
    if d < 10 {
        ((d + 0x30) as u8) as char
    } else {
        ((d - 10 + 0x61) as u8) as char
    }
}

/// The last `width` hexadecimal digits of `v`, zero-padded.
pub open spec fn hex_fixed(v: nat, width: nat) -> Seq<char>
    decreases width,
{
    if width == 0 {
        Seq::empty()
    } else {
        hex_fixed(v / 16, (width - 1) as nat).push(hex_digit(v % 16))
    }
}

fn hex_char(d: u64) -> (c: char)
    requires
        d < 16,
    ensures
        c == hex_digit(d as nat),
{
    if d < 10 {
        ((d + 0x30) as u8) as char
    } else {
        ((d - 10 + 0x61) as u8) as char
    }
}

/// The last `width` hexadecimal digits of `v`, zero-padded, computed.
pub fn hex_of(v: u64, width: usize) -> (r: String)
    ensures
        r@ == hex_fixed(v as nat, width as nat),
    decreases width,
{
    if width == 0 {
        String::new()
    } else {
        let mut s = hex_of(v / 16, width - 1);
        push_char(&mut s, hex_char(v % 16));
        s
    }
}

/// The first half of the identifier bits: the low 64 bits of the time, mixed.
pub open spec fn id_low(time: u128) -> u64 {
    (time as u64) ^ 0xDEADBEEF_CAFEBABEu64
}

/// The second half of the identifier bits: the high 64 bits of the time, mixed.
pub open spec fn id_high(time: u128) -> u64 {
    ((time >> 64u128) as u64) ^ 0x12345678_ABCDEF01u64
}

/// The session identifier made from a time in nanoseconds, in the layout of
/// a version-4 UUID: `xxxxxxxx-xxxx-4xxx-yxxx-xxxxxxxxxxxx`.
pub open spec fn session_id_text(time: u128) -> Seq<char> {
    let a = id_low(time);
    let b = id_high(time);
    hex_fixed((a >> 32u64) as nat, 8) + "-"@ + hex_fixed(((a >> 16u64) & 0xFFFFu64) as nat, 4) + "-4"@ + hex_fixed(
        ((a >> 4u64) & 0xFFFu64) as nat,
        3,
    ) + "-"@ + hex_fixed((((b >> 16u64) & 0x3FFFu64) | 0x8000u64) as nat, 4) + "-"@ + hex_fixed(
        (b & 0xFFFF_FFFF_FFFFu64) as nat,
        12,
    )
}

/// The session identifier made from a time in nanoseconds (see
/// [`session_id_text`]).
pub fn session_id_from(time: u128) -> (r: String)
    ensures
        r@ == session_id_text(time),
{
    let a: u64 = (time as u64) ^ 0xDEADBEEF_CAFEBABEu64;
    let b: u64 = ((time >> 64u128) as u64) ^ 0x12345678_ABCDEF01u64;
    let s1 = hex_of(a >> 32u64, 8);
    let s2 = hex_of((a >> 16u64) & 0xFFFFu64, 4);
    let s3 = hex_of((a >> 4u64) & 0xFFFu64, 3);
    let s4 = hex_of(((b >> 16u64) & 0x3FFFu64) | 0x8000u64, 4);
    let s5 = hex_of(b & 0xFFFF_FFFF_FFFFu64, 12);
    let mut r = join5(s1.as_str(), "-", s2.as_str(), "-4", s3.as_str());
    r.append("-");
    r.append(s4.as_str());
    r.append("-");
    r.append(s5.as_str());
    r
}

/// `SystemTime::now()` since the Unix epoch, in nanoseconds (0 before the
/// epoch). Nothing is stated of it (it is the time).
#[verifier::external_body]
fn nanos_now() -> (r: u128) {
    std::time::SystemTime::now().duration_since(std::time::UNIX_EPOCH).unwrap_or_default().as_nanos()
}


// ───────────────────────────── the session ─────────────────────────────

/// An entry of `h` equal to `e` except for the status and what the update sets.
pub open spec fn history_tail_changed(old_h: Seq<ExecutionEntry>, new_h: Seq<ExecutionEntry>) -> bool {
    &&& new_h.len() == old_h.len()
    &&& forall|i: int| 0 <= i < old_h.len() - 1 ==> #[trigger] new_h[i] == old_h[i]
    &&& old_h.len() > 0 ==> new_h[old_h.len() - 1].skill_name == old_h[old_h.len() - 1].skill_name
    &&& old_h.len() > 0 ==> new_h[old_h.len() - 1].timestamp == old_h[old_h.len() - 1].timestamp
}

/// The context of a failed entry: its context (or "Error"), a colon and the error.
pub open spec fn failure_context(context: Option<String>, err: Seq<char>) -> Seq<char> {
    let base = match context {
        Some(c) => c@,
        None => "Error"@,
    };
    base + ": "@ + err
}

/// Number of entries of `h` for the skill `name`.
pub open spec fn count_of(h: Seq<ExecutionEntry>, name: Seq<char>) -> nat
    decreases h.len(),
{
    if h.len() == 0 {
        0
    } else {
        count_of(h.drop_last(), name) + if h[h.len() - 1].skill_name@ == name {
            1nat
        } else {
            0nat
        }
    }
}

impl SessionState {
    /// An empty session named `session_id`.
    pub fn with_id(session_id: &str) -> (s: SessionState)
        ensures
            s.session_id@ == session_id@,
            s.current_skill@ == Seq::<char>::empty(),
            s.execution_history@.len() == 0,
            s.metadata.model() == Map::<Seq<char>, Value>::empty(),
    {
        SessionState {
            session_id: String::from_str(session_id),
            current_skill: String::new(),
            execution_history: Vec::new(),
            metadata: StrMap::new(),
        }
    }

    /// An empty session with an identifier made from the current time.
    pub fn new() -> (s: SessionState)
        ensures
            exists|t: u128| s.session_id@ == session_id_text(t),
            s.current_skill@ == Seq::<char>::empty(),
            s.execution_history@.len() == 0,
            s.metadata.model() == Map::<Seq<char>, Value>::empty(),
    {
        let t = nanos_now();
        let id = session_id_from(t);
        let s = SessionState::with_id(id.as_str());
        assert(s.session_id@ == session_id_text(t));
        s
    }

    /// Record the start of `skill_name` at `timestamp`; it becomes the current skill.
    pub fn add_execution_at(&mut self, skill_name: &str, context: Option<&str>, timestamp: String)
        ensures
            final(self).execution_history@.len() == old(self).execution_history@.len() + 1,
            final(self).execution_history@.drop_last() == old(self).execution_history@,
            ({
                let e = final(self).execution_history@.last();
                &&& e.skill_name@ == skill_name@
                &&& e.timestamp == timestamp
                &&& e.context.is_some() == context.is_some()
                &&& context.is_some() ==> e.context.unwrap()@ == context.unwrap()@
                &&& e.duration_ms is None
                &&& e.status@ == "started"@
            }),
            final(self).current_skill@ == skill_name@,
            final(self).session_id == old(self).session_id,
            final(self).metadata == old(self).metadata,
    {
        let ctx = match context {
            Some(c) => Some(String::from_str(c)),
            None => None,
        };
        let ghost before = self.execution_history@;
        self.execution_history.push(
            ExecutionEntry {
                skill_name: String::from_str(skill_name),
                timestamp,
                context: ctx,
                duration_ms: None,
                status: String::from_str("started"),
            },
        );
        proof {
            assert(self.execution_history@.drop_last() =~= before);
        }
        self.current_skill = String::from_str(skill_name);
    }

    /// Record the start of `skill_name`, now.
    pub fn add_execution(&mut self, skill_name: &str, context: Option<&str>)
        ensures
            final(self).execution_history@.len() == old(self).execution_history@.len() + 1,
            final(self).execution_history@.drop_last() == old(self).execution_history@,
            ({
                let e = final(self).execution_history@.last();
                &&& e.skill_name@ == skill_name@
                &&& e.context.is_some() == context.is_some()
                &&& context.is_some() ==> e.context.unwrap()@ == context.unwrap()@
                &&& e.duration_ms is None
                &&& e.status@ == "started"@
            }),
            final(self).current_skill@ == skill_name@,
            final(self).session_id == old(self).session_id,
            final(self).metadata == old(self).metadata,
    {
        let ts = crate::clock::rfc3339_now();
        self.add_execution_at(skill_name, context, ts);
    }

    /// Mark the last execution completed, with its duration; nothing happens
    /// to an empty history.
    pub fn complete_execution(&mut self, duration_ms: Option<u64>)
        ensures
            history_tail_changed(old(self).execution_history@, final(self).execution_history@),
            old(self).execution_history@.len() > 0 ==> ({
                let e = final(self).execution_history@.last();
                let o = old(self).execution_history@.last();
                &&& e.status@ == "completed"@
                &&& e.duration_ms == duration_ms
                &&& e.context == o.context
            }),
            final(self).current_skill == old(self).current_skill,
            final(self).session_id == old(self).session_id,
            final(self).metadata == old(self).metadata,
    {
        let n = self.execution_history.len();
        if n > 0 {
            let ghost before = self.execution_history@;
            let mut e = self.execution_history.pop().unwrap();
            e.status = String::from_str("completed");
            e.duration_ms = duration_ms;
            self.execution_history.push(e);
            proof {
                assert forall|i: int| 0 <= i < before.len() - 1 implies #[trigger] self.execution_history@[i] == before[i] by {}
            }
        }
    }

    /// Mark the last execution failed; with an error, its context becomes
    /// `"<context or Error>: <error>"`. Nothing happens to an empty history.
    pub fn fail_execution(&mut self, error: Option<&str>)
        ensures
            history_tail_changed(old(self).execution_history@, final(self).execution_history@),
            old(self).execution_history@.len() > 0 ==> ({
                let e = final(self).execution_history@.last();
                let o = old(self).execution_history@.last();
                &&& e.status@ == "failed"@
                &&& e.duration_ms == o.duration_ms
                &&& match error {
                    Some(err) => e.context is Some && e.context.unwrap()@ == failure_context(o.context, err@),
                    None => e.context == o.context,
                }
            }),
            final(self).current_skill == old(self).current_skill,
            final(self).session_id == old(self).session_id,
            final(self).metadata == old(self).metadata,
    {
        let n = self.execution_history.len();
        if n > 0 {
            let ghost before = self.execution_history@;
            let mut e = self.execution_history.pop().unwrap();
            e.status = String::from_str("failed");
            match error {
                Some(err) => {
                    let base: &str = match &e.context {
                        Some(c) => c.as_str(),
                        None => "Error",
                    };
                    let text = join5(base, ": ", err, "", "");
                    proof {
                        reveal_strlit("");
                    }
                    e.context = Some(text);
                },
                None => {},
            }
            self.execution_history.push(e);
            proof {
                assert forall|i: int| 0 <= i < before.len() - 1 implies #[trigger] self.execution_history@[i] == before[i] by {}
            }
        }
    }

    /// Number of executions of `skill_name`.
    pub fn execution_count(&self, skill_name: &str) -> (r: usize)
        ensures
            r == count_of(self.execution_history@, skill_name@),
    {
        let mut count: usize = 0;
        let mut i: usize = 0;
        while i < self.execution_history.len()
            invariant
                i <= self.execution_history@.len(),
                count == count_of(self.execution_history@.take(i as int), skill_name@),
                count <= i,
            decreases self.execution_history@.len() - i,
        {
            proof {
                assert(self.execution_history@.take(i + 1).drop_last() =~= self.execution_history@.take(i as int));
            }
            if str_eq(self.execution_history[i].skill_name.as_str(), skill_name) {
                count = count + 1;
            }
            i = i + 1;
        }
        proof {
            assert(self.execution_history@.take(self.execution_history@.len() as int) =~= self.execution_history@);
        }
        count
    }

    /// The `n` most recent executions, most recent first.
    pub fn recent_executions(&self, n: usize) -> (r: Vec<&ExecutionEntry>)
        ensures
            r@.len() == if n < self.execution_history@.len() {
                n as int
            } else {
                self.execution_history@.len() as int
            },
            forall|i: int| 0 <= i < r@.len() ==> *(#[trigger] r@[i]) == self.execution_history@[self.execution_history@.len() - 1 - i],
    {
        let len = self.execution_history.len();
        let mut r: Vec<&ExecutionEntry> = Vec::new();
        let mut i: usize = 0;
        while i < n && i < len
            invariant
                len == self.execution_history@.len(),
                i <= len,
                i <= n,
                r@.len() == i,
                forall|j: int| 0 <= j < i ==> *(#[trigger] r@[j]) == self.execution_history@[len - 1 - j],
            decreases len - i,
        {
            r.push(&self.execution_history[len - 1 - i]);
            i = i + 1;
        }
        r
    }

    /// Keep only the `keep` most recent executions.
    pub fn trim_history(&mut self, keep: usize)
        ensures
            final(self).execution_history@ == if old(self).execution_history@.len() > keep {
                old(self).execution_history@.skip(old(self).execution_history@.len() - keep)
            } else {
                old(self).execution_history@
            },
            final(self).current_skill == old(self).current_skill,
            final(self).session_id == old(self).session_id,
            final(self).metadata == old(self).metadata,
    {
        let len = self.execution_history.len();
        if len > keep {
            let start = len - keep;
            let ghost before = self.execution_history@;
            let ghost cs = self.current_skill;
            let ghost sid = self.session_id;
            let ghost md = self.metadata;
            let mut kept: Vec<ExecutionEntry> = Vec::new();
            let mut rev: Vec<ExecutionEntry> = Vec::new();
            let mut i: usize = 0;
            while i < keep
                invariant
                    i <= keep,
                    self.execution_history@ == before.take(len - i),
                    self.current_skill == cs,
                    self.session_id == sid,
                    self.metadata == md,
                    rev@.len() == i,
                    forall|j: int| 0 <= j < i ==> #[trigger] rev@[j] == before[len - 1 - j],
                    len == before.len(),
                    keep < len,
                decreases keep - i,
            {
                let e = self.execution_history.pop().unwrap();
                proof {
                    assert(self.execution_history@ =~= before.take(len - i - 1));
                }
                rev.push(e);
                i = i + 1;
            }
            let mut k: usize = 0;
            while k < keep
                invariant
                    k <= keep,
                    rev@.len() == keep - k,
                    forall|j: int| 0 <= j < keep - k ==> #[trigger] rev@[j] == before[len - 1 - j],
                    kept@.len() == k,
                    forall|j: int| 0 <= j < k ==> #[trigger] kept@[j] == before[start + j],
                    self.current_skill == cs,
                    self.session_id == sid,
                    self.metadata == md,
                    len == before.len(),
                    start == len - keep,
                decreases keep - k,
            {
                let ghost rb = rev@;
                let e = rev.pop().unwrap();
                proof {
                    assert(e == rb[keep - k - 1]);
                }
                kept.push(e);
                k = k + 1;
            }
            self.execution_history = kept;
            proof {
                assert(self.execution_history@ =~= before.skip(start as int));
            }
        }
    }
}

} // verus!
