//! The session registry: the one shared structure of the manager.
//!
//! It owns every live session — id, display name, resolved command
//! string, the session's OS handles (held opaquely as a type parameter,
//! since all I/O on them happens at the caller's edge) and the optional
//! recording state. Ids are allocated from a monotonic counter and never
//! reused within the registry's lifetime; names are unique among live
//! sessions.
use vstd::prelude::*;
use crate::digits::dec_str;
use crate::digits::dec_string;
use crate::digits::lemma_dec_str_injective;
use crate::errors::PtyError;
use crate::jsonl::RecordingMetaV1;
use crate::jsonl::encode_meta_line;
use crate::jsonl::spec_meta_line;
use crate::names::dash_name;
use crate::names::name_views;
use crate::names::unique_name;
use crate::recorder::RecordingState;
use crate::recorder::record_transition;
use crate::sanitize::recording_file_name;
use crate::sanitize::sanitize_recording_id;
use crate::sanitize::spec_recording_file_name;
use crate::sanitize::spec_sanitize_recording_id;
use crate::text::trimmed;

verus! {

/// One live session: its identity, what it runs, the caller's opaque
/// OS handles, and its recording, if one is active.
pub struct Session<H> {
    /// Process-unique id, allocated by the registry.
    pub id: String,
    /// Display name, unique among live sessions.
    pub name: String,
    /// Display string of the resolved program and arguments.
    pub command: String,
    /// The session's OS handles, opaque to the registry.
    pub handle: H,
    /// The active recording, if any.
    pub recording: Option<RecordingState>,
}

/// What a session-lifecycle call reports back about one session.
#[derive(Clone)]
pub struct SessionInfo {
    pub id: String,
    pub name: String,
    pub command: String,
    pub cwd: Option<String>,
}

/// What starting a recording hands back: the sanitized id, the log's
/// file name, and the metadata line to write first.
pub struct StartedRecording {
    pub recording_id: String,
    pub file_name: String,
    pub meta_line: String,
}

/// The registry of live sessions.
pub struct SessionManager<H> {
    sessions: Vec<Session<H>>,
    next_id: u64,
    allocated: Ghost<Set<Seq<char>>>,
}

/// The base name a session request resolves to: the trimmed requested
/// name; `shell` or `agent` when none was given; `session` when the
/// request trims to nothing.
pub open spec fn spec_base_name(requested: Option<String>, is_shell: bool) -> Seq<char> {
    let raw = match requested {
        Option::Some(s) => s@,
        Option::None => if is_shell {
            "shell"@
        } else {
            "agent"@
        },
    };
    if trimmed(raw).len() == 0 {
        "session"@
    } else {
        trimmed(raw)
    }
}

impl<H> SessionManager<H> {
    /// The live sessions, in insertion order.
    pub closed spec fn rows(self) -> Seq<Session<H>> {
        self.sessions@
    }

    /// The id counter: the number the next session id is rendered from.
    pub closed spec fn next_counter(self) -> nat {
        self.next_id as nat
    }

    /// Every id this registry has ever allocated.
    pub closed spec fn allocated_ids(self) -> Set<Seq<char>> {
        self.allocated@
    }

    /// The registry's invariant: live ids are pairwise distinct and
    /// drawn from the allocated set, live names are pairwise distinct,
    /// and every allocated id is the decimal of a counter value already
    /// passed.
    pub open spec fn wf(self) -> bool {
        &&& forall|i: int, j: int|
            #![trigger self.rows()[i].id@, self.rows()[j].id@]
            0 <= i < j < self.rows().len() ==> self.rows()[i].id@ != self.rows()[j].id@
        &&& forall|i: int, j: int|
            #![trigger self.rows()[i].name@, self.rows()[j].name@]
            0 <= i < j < self.rows().len() ==> self.rows()[i].name@ != self.rows()[j].name@
        &&& forall|i: int|
            0 <= i < self.rows().len() ==> self.allocated_ids().contains(
                #[trigger] self.rows()[i].id@,
            )
        &&& forall|s: Seq<char>|
            self.allocated_ids().contains(s) ==> exists|n: nat|
                n < self.next_counter() && s == dec_str(n)
    }

    /// True while the id counter has room for another allocation.
    pub open spec fn id_space_left(self) -> bool {
        self.next_counter() < u64::MAX as nat
    }

    /// True when a session with this id is live.
    pub open spec fn has_live(self, id: Seq<char>) -> bool {
        exists|i: int| 0 <= i < self.rows().len() && #[trigger] self.rows()[i].id@ == id
    }

    /// The index of the live session with this id.
    pub open spec fn index_of(self, id: Seq<char>) -> int {
        choose|i: int| 0 <= i < self.rows().len() && #[trigger] self.rows()[i].id@ == id
    }

    /// The names of the live sessions.
    pub open spec fn live_names(self) -> Seq<Seq<char>> {
        self.rows().map_values(|s: Session<H>| s.name@)
    }

    /// An empty registry with the counter at zero.
    pub fn new() -> (r: SessionManager<H>)
        ensures
            r.wf(),
            r.rows() == Seq::<Session<H>>::empty(),
            r.next_counter() == 0,
            r.allocated_ids() == Set::<Seq<char>>::empty(),
    {
        SessionManager { sessions: Vec::new(), next_id: 0, allocated: Ghost(Set::empty()) }
    }

    /// Uniqueness among the living: no two simultaneously-live sessions
    /// ever hold the same name, nor the same id.
    pub proof fn lemma_live_sessions_distinct(self, i: int, j: int)
        requires
            self.wf(),
            0 <= i < j < self.rows().len(),
        ensures
            self.rows()[i].name@ != self.rows()[j].name@,
            self.rows()[i].id@ != self.rows()[j].id@,
    {
    }

    /// A freshly rendered counter id was never allocated before.
    proof fn lemma_fresh_id(self)
        requires
            self.wf(),
        ensures
            !self.allocated_ids().contains(dec_str(self.next_counter())),
    {
        if self.allocated_ids().contains(dec_str(self.next_counter())) {
            let n = choose|n: nat|
                n < self.next_counter() && dec_str(self.next_counter()) == #[trigger] dec_str(n);
            lemma_dec_str_injective(n, self.next_counter());
        }
    }

    /// The current names as owned strings.
    fn collect_names(&self) -> (r: Vec<String>)
        ensures
            name_views(r@) == self.live_names(),
    {
        let mut r: Vec<String> = Vec::new();
        let mut k: usize = 0;
        while k < self.sessions.len()
            invariant
                0 <= k <= self.sessions@.len(),
                r@.len() == k,
                forall|j: int| 0 <= j < k ==> #[trigger] r@[j]@ == self.sessions@[j].name@,
            decreases self.sessions@.len() - k,
        {
            let row = &self.sessions[k];
            r.push(row.name.clone());
            k = k + 1;
        }
        proof {
            assert(name_views(r@) =~= self.live_names());
        }
        r
    }

    /// The index of the live session with this id, if any.
    fn find_index(&self, id: &str) -> (r: Option<usize>)
        requires
            self.wf(),
        ensures
            match r {
                Option::Some(k) => k < self.rows().len() && self.rows()[k as int].id@ == id@
                    && self.index_of(id@) == k as int && self.has_live(id@),
                Option::None => !self.has_live(id@),
            },
    {
        let id_string = String::from_str(id);
        let mut k: usize = 0;
        while k < self.sessions.len()
            invariant
                self.wf(),
                0 <= k <= self.sessions@.len(),
                id_string@ == id@,
                forall|j: int| 0 <= j < k ==> #[trigger] self.sessions@[j].id@ != id@,
            decreases self.sessions@.len() - k,
        {
            let row = &self.sessions[k];
            if row.id.eq(&id_string) {
                proof {
                    assert(self.rows()[k as int].id@ == id@);
                    assert(self.has_live(id@));
                    let i = self.index_of(id@);
                    assert(0 <= i < self.rows().len() && self.rows()[i].id@ == id@);
                    if i < k as int {
                        assert(self.rows()[i].id@ != self.rows()[k as int].id@);
                    } else if i > k as int {
                        assert(self.rows()[k as int].id@ != self.rows()[i].id@);
                    }
                }
                return Some(k);
            }
            k = k + 1;
        }
        None
    }

    /// The id the next registration will allocate, for a caller that
    /// needs it while preparing the spawn (the private zsh startup
    /// directory is keyed by it).
    pub fn peek_next_id(&self) -> (r: String)
        ensures
            r@ == dec_str(self.next_counter()),
    {
        dec_string(self.next_id as u128)
    }

    /// Whether the id counter still has room; callers check this before
    /// registering a session.
    pub fn can_allocate(&self) -> (r: bool)
        ensures
            r == self.id_space_left(),
    {
        self.next_id < u64::MAX
    }

    /// Whether a session with this id is live.
    pub fn has_session(&self, id: &str) -> (r: bool)
        requires
            self.wf(),
        ensures
            r == self.has_live(id@),
    {
        match self.find_index(id) {
            Option::Some(_) => true,
            Option::None => false,
        }
    }

    /// Registers a freshly spawned session: allocates the next id,
    /// de-duplicates the display name against the live sessions, and
    /// stores the session with no recording. Returns what the caller
    /// reports back, with the id never allocated before.
    pub fn register_session(
        &mut self,
        requested_name: Option<String>,
        is_shell: bool,
        shown_command: String,
        cwd: Option<String>,
        handle: H,
    ) -> (info: SessionInfo)
        requires
            old(self).wf(),
            old(self).id_space_left(),
        ensures
            final (self).wf(),
            info.id@ == dec_str(old(self).next_counter()),
            !old(self).allocated_ids().contains(info.id@),
            final (self).allocated_ids() == old(self).allocated_ids().insert(info.id@),
            final (self).next_counter() == old(self).next_counter() + 1,
            info.command == shown_command,
            info.cwd == cwd,
            !name_is_taken_views(old(self).live_names(), spec_base_name(requested_name, is_shell))
                ==> info.name@ == spec_base_name(requested_name, is_shell),
            name_is_taken_views(old(self).live_names(), spec_base_name(requested_name, is_shell))
                ==> exists|n: nat|
                2 <= n && info.name@ == dash_name(spec_base_name(requested_name, is_shell), n) && (
                forall|m: nat|
                    2 <= m < n ==> name_is_taken_views(
                        old(self).live_names(),
                        #[trigger] dash_name(spec_base_name(requested_name, is_shell), m),
                    )),
            !name_is_taken_views(old(self).live_names(), info.name@),
            final (self).rows().len() == old(self).rows().len() + 1,
            forall|j: int|
                0 <= j < old(self).rows().len() ==> final (self).rows()[j] == old(self).rows()[j],
            final (self).rows().last().id@ == info.id@,
            final (self).rows().last().name@ == info.name@,
            final (self).rows().last().command == shown_command,
            final (self).rows().last().handle == handle,
            final (self).rows().last().recording is None,
    {
        let names = self.collect_names();
        let base_raw: &str = match &requested_name {
            Option::Some(s) => s.as_str(),
            Option::None => if is_shell {
                "shell"
            } else {
                "agent"
            },
        };
        let base_trimmed = crate::text::trim_str(base_raw);
        let base: &str = if base_trimmed.is_empty() {
            "session"
        } else {
            base_trimmed
        };
        proof {
            assert(base@ == spec_base_name(requested_name, is_shell));
        }
        let final_name = unique_name(&names, base);
        let id = dec_string(self.next_id as u128);
        proof {
            self.lemma_fresh_id();
        }
        let info = SessionInfo {
            id: id.clone(),
            name: final_name.clone(),
            command: shown_command.clone(),
            cwd,
        };
        let ghost pre = *self;
        self.sessions.push(
            Session {
                id,
                name: final_name,
                command: shown_command,
                handle,
                recording: Option::None,
            },
        );
        self.next_id = self.next_id + 1;
        proof {
            self.allocated@ = self.allocated@.insert(info.id@);
            let rows = self.rows();
            let n = rows.len() as int;
            assert forall|i: int, j: int|
                #![trigger rows[i].id@, rows[j].id@]
                0 <= i < j < n implies rows[i].id@ != rows[j].id@ by {
                if j < n - 1 {
                    assert(pre.rows()[i].id@ != pre.rows()[j].id@);
                } else {
                    assert(pre.allocated_ids().contains(rows[i].id@));
                }
            }
            assert forall|i: int, j: int|
                #![trigger rows[i].name@, rows[j].name@]
                0 <= i < j < n implies rows[i].name@ != rows[j].name@ by {
                if j < n - 1 {
                    assert(pre.rows()[i].name@ != pre.rows()[j].name@);
                } else {
                    assert(pre.live_names()[i] == rows[i].name@);
                    assert(!pre.live_names().contains(rows[j].name@));
                }
            }
            assert forall|s: Seq<char>| self.allocated_ids().contains(s) implies exists|m: nat|
                m < self.next_counter() && s == dec_str(m) by {
                if pre.allocated_ids().contains(s) {
                    let m = choose|m: nat| m < pre.next_counter() && s == dec_str(m);
                    assert(m < self.next_counter() && s == dec_str(m));
                } else {
                    assert(s == dec_str(pre.next_counter()));
                    assert(pre.next_counter() < self.next_counter());
                }
            }
        }
        info
    }

    /// Lists every live session, in insertion order; the registry does
    /// not store a working directory, so none is reported.
    pub fn list_sessions(&self) -> (r: Vec<SessionInfo>)
        ensures
            r@.len() == self.rows().len(),
            forall|k: int|
                0 <= k < r@.len() ==> (#[trigger] r@[k]).id@ == self.rows()[k].id@ && r@[k].name@
                    == self.rows()[k].name@ && r@[k].command@ == self.rows()[k].command@
                    && r@[k].cwd is None,
    {
        let mut r: Vec<SessionInfo> = Vec::new();
        let mut k: usize = 0;
        while k < self.sessions.len()
            invariant
                0 <= k <= self.sessions@.len(),
                r@.len() == k,
                forall|j: int|
                    0 <= j < k ==> (#[trigger] r@[j]).id@ == self.sessions@[j].id@ && r@[j].name@
                        == self.sessions@[j].name@ && r@[j].command@ == self.sessions@[j].command@
                        && r@[j].cwd is None,
            decreases self.sessions@.len() - k,
        {
            let row = &self.sessions[k];
            r.push(
                SessionInfo {
                    id: row.id.clone(),
                    name: row.name.clone(),
                    command: row.command.clone(),
                    cwd: Option::None,
                },
            );
            k = k + 1;
        }
        r
    }

    /// Mutable access to the OS handles of a live session; everything
    /// else in the registry stays as it was.
    pub fn handle_mut(&mut self, id: &str) -> (h: &mut H)
        requires
            old(self).wf(),
            old(self).has_live(id@),
        ensures
            *h == old(self).rows()[old(self).index_of(id@)].handle,
            final (self).wf(),
            final (self).rows() == old(self).rows().update(
                old(self).index_of(id@),
                (Session {
                    handle: *final (h),
                    ..old(self).rows()[old(self).index_of(id@)]
                }),
            ),
            final (self).next_counter() == old(self).next_counter(),
            final (self).allocated_ids() == old(self).allocated_ids(),
    {
        let k = match self.find_index(id) {
            Option::Some(k) => k,
            Option::None => {
                proof {
                    assert(false);
                }
                0
            },
        };
        let row = &mut self.sessions[k];
        &mut row.handle
    }

    /// Removes the session with this id, handing its whole state back
    /// to the caller for teardown. Closing an unknown
    /// or already-closed id is a successful no-op, and no id is ever
    /// freed for reuse.
    pub fn close_session(&mut self, id: &str) -> (r: Option<Session<H>>)
        requires
            old(self).wf(),
        ensures
            final (self).wf(),
            final (self).next_counter() == old(self).next_counter(),
            final (self).allocated_ids() == old(self).allocated_ids(),
            !final (self).has_live(id@),
            r is Some <==> old(self).has_live(id@),
            r matches Some(s) ==> s == old(self).rows()[old(self).index_of(id@)] && final (
            self).rows() == old(self).rows().remove(old(self).index_of(id@)),
            r is None ==> final (self).rows() == old(self).rows(),
    {
        let k = match self.find_index(id) {
            Option::Some(k) => k,
            Option::None => {
                return None;
            },
        };
        let s = self.sessions.remove(k);
        proof {
            let pre = old(self).rows();
            let post = self.rows();
            assert forall|i: int, j: int|
                #![trigger post[i].id@, post[j].id@]
                0 <= i < j < post.len() implies post[i].id@ != post[j].id@ by {
                lemma_remove_pairs(pre, k as int, i, j);
            }
            assert forall|i: int, j: int|
                #![trigger post[i].name@, post[j].name@]
                0 <= i < j < post.len() implies post[i].name@ != post[j].name@ by {
                lemma_remove_pairs(pre, k as int, i, j);
            }
            assert forall|i: int| 0 <= i < post.len() implies self.allocated_ids().contains(
                #[trigger] post[i].id@,
            ) by {
                lemma_remove_one(pre, k as int, i);
            }
            assert forall|i: int| 0 <= i < post.len() implies post[i].id@ != id@ by {
                lemma_remove_one(pre, k as int, i);
                if i < k as int {
                    assert(pre[i].id@ != pre[k as int].id@);
                } else {
                    assert(pre[k as int].id@ != pre[i + 1].id@);
                }
            }
        }
        Some(s)
    }

    /// Starts a recording on a live session that has none: sanitizes
    /// the requested id, attaches fresh flush bookkeeping, and returns
    /// the log file name with the metadata line the caller must write
    /// and flush first. `created_at_ms` stamps the metadata with wall
    /// time; `now_ms` starts the event clock.
    pub fn start_session_recording(
        &mut self,
        id: &str,
        recording_id: &str,
        project_id: String,
        session_persist_id: String,
        cwd: Option<String>,
        created_at_ms: u64,
        now_ms: u64,
    ) -> (r: Result<StartedRecording, PtyError>)
        requires
            old(self).wf(),
        ensures
            final (self).wf(),
            final (self).next_counter() == old(self).next_counter(),
            final (self).allocated_ids() == old(self).allocated_ids(),
            !old(self).has_live(id@) ==> (r matches Err(e) && e == PtyError::UnknownSession
                && final (self).rows() == old(self).rows()),
            old(self).has_live(id@) && old(self).rows()[old(self).index_of(id@)].recording is Some
                ==> (r matches Err(e) && e == PtyError::AlreadyRecording && final (self).rows()
                == old(self).rows()),
            old(self).has_live(id@) && old(self).rows()[old(self).index_of(id@)].recording is None
                ==> ({
                let k = old(self).index_of(id@);
                &&& r matches Ok(sr)
                &&& sr.recording_id@ == spec_sanitize_recording_id(recording_id@)
                &&& sr.file_name@ == spec_recording_file_name(
                    spec_sanitize_recording_id(recording_id@),
                )
                &&& sr.meta_line@ == spec_meta_line(
                    (RecordingMetaV1 {
                        schema_version: 1,
                        created_at: created_at_ms,
                        project_id: project_id,
                        session_persist_id: session_persist_id,
                        cwd: cwd,
                    }),
                )
                &&& final (self).rows().len() == old(self).rows().len()
                &&& forall|j: int|
                    0 <= j < old(self).rows().len() && j != k ==> final (self).rows()[j] == old(
                        self,
                    ).rows()[j]
                &&& same_session_core(final (self).rows()[k], old(self).rows()[k])
                &&& final (self).rows()[k].recording matches Some(rec)
                    && rec.id@ == spec_sanitize_recording_id(recording_id@)
                    && rec.started_at_ms == now_ms && rec.last_flush_ms == now_ms
                    && rec.unflushed_bytes == 0
            }),
    {
        let safe_id = sanitize_recording_id(recording_id);
        let k = match self.find_index(id) {
            Option::Some(k) => k,
            Option::None => {
                return Err(PtyError::UnknownSession);
            },
        };
        let row = &mut self.sessions[k];
        if row.recording.is_some() {
            return Err(PtyError::AlreadyRecording);
        }
        let file_name = recording_file_name(safe_id.as_str());
        let meta = RecordingMetaV1 {
            schema_version: 1,
            created_at: created_at_ms,
            project_id,
            session_persist_id,
            cwd,
        };
        let meta_line = encode_meta_line(&meta);
        let rec = RecordingState::new(safe_id.clone(), now_ms);
        row.recording = Some(rec);
        proof {
            lemma_update_keeps_wf(old(self).rows(), self.rows(), k as int);
        }
        Ok(StartedRecording { recording_id: safe_id, file_name, meta_line })
    }

    /// Stops a live session's recording if one is active, handing back
    /// its id so the caller can flush and report it; stopping a session
    /// that is not recording returns nothing and is not an error.
    pub fn stop_session_recording(&mut self, id: &str) -> (r: Result<Option<String>, PtyError>)
        requires
            old(self).wf(),
        ensures
            final (self).wf(),
            final (self).next_counter() == old(self).next_counter(),
            final (self).allocated_ids() == old(self).allocated_ids(),
            !old(self).has_live(id@) ==> (r matches Err(e) && e == PtyError::UnknownSession
                && final (self).rows() == old(self).rows()),
            old(self).has_live(id@) && old(self).rows()[old(self).index_of(id@)].recording is None
                ==> (r matches Ok(o) && o is None && final (self).rows() == old(self).rows()),
            old(self).has_live(id@) ==> (old(self).rows()[old(self).index_of(
                id@,
            )].recording matches Some(rec) ==> ({
                let k = old(self).index_of(id@);
                &&& r matches Ok(o)
                &&& o matches Some(rid) && rid@ == rec.id@
                &&& final (self).rows().len() == old(self).rows().len()
                &&& forall|j: int|
                    0 <= j < old(self).rows().len() && j != k ==> final (self).rows()[j] == old(
                        self,
                    ).rows()[j]
                &&& same_session_core(final (self).rows()[k], old(self).rows()[k])
                &&& final (self).rows()[k].recording is None
            })),
    {
        let k = match self.find_index(id) {
            Option::Some(k) => k,
            Option::None => {
                return Err(PtyError::UnknownSession);
            },
        };
        let row = &mut self.sessions[k];
        let rec = row.recording.take();
        match rec {
            Option::None => {
                proof {
                    assert(final (self).rows() =~= old(self).rows());
                }
                Ok(None)
            },
            Option::Some(rec) => {
                proof {
                    lemma_update_keeps_wf(old(self).rows(), self.rows(), k as int);
                }
                Ok(Some(rec.id))
            },
        }
    }

    /// Detaches a live session's recording without reporting anything:
    /// the absorbing path taken when an append to the log fails. The
    /// session itself continues.
    pub fn detach_recording(&mut self, id: &str)
        requires
            old(self).wf(),
        ensures
            final (self).wf(),
            final (self).next_counter() == old(self).next_counter(),
            final (self).allocated_ids() == old(self).allocated_ids(),
            !old(self).has_live(id@) ==> final (self).rows() == old(self).rows(),
            old(self).has_live(id@) ==> ({
                let k = old(self).index_of(id@);
                &&& final (self).rows().len() == old(self).rows().len()
                &&& forall|j: int|
                    0 <= j < old(self).rows().len() && j != k ==> final (self).rows()[j] == old(
                        self,
                    ).rows()[j]
                &&& same_session_core(final (self).rows()[k], old(self).rows()[k])
                &&& final (self).rows()[k].recording is None
            }),
    {
        let k = match self.find_index(id) {
            Option::Some(k) => k,
            Option::None => {
                return ;
            },
        };
        let row = &mut self.sessions[k];
        row.recording = None;
        proof {
            lemma_update_keeps_wf(old(self).rows(), self.rows(), k as int);
        }
    }

    /// Records one user-sourced write against a live session's
    /// recording: returns the encoded log line and the flush decision,
    /// or nothing when the session is not recording. The caller has
    /// already written the data to the PTY; it then appends the line
    /// and a newline to the log and flushes iff told to.
    pub fn record_user_input(&mut self, id: &str, data: &str, now_ms: u64) -> (r: Result<
        Option<(String, bool)>,
        PtyError,
    >)
        requires
            old(self).wf(),
        ensures
            final (self).wf(),
            final (self).next_counter() == old(self).next_counter(),
            final (self).allocated_ids() == old(self).allocated_ids(),
            !old(self).has_live(id@) ==> (r matches Err(e) && e == PtyError::UnknownSession
                && final (self).rows() == old(self).rows()),
            old(self).has_live(id@) && old(self).rows()[old(self).index_of(id@)].recording is None
                ==> (r matches Ok(o) && o is None && final (self).rows() == old(self).rows()),
            old(self).has_live(id@) ==> (old(self).rows()[old(self).index_of(
                id@,
            )].recording matches Some(rec) ==> ({
                let k = old(self).index_of(id@);
                &&& r matches Ok(o)
                &&& o matches Some(lf)
                &&& final (self).rows().len() == old(self).rows().len()
                &&& forall|j: int|
                    0 <= j < old(self).rows().len() && j != k ==> final (self).rows()[j] == old(
                        self,
                    ).rows()[j]
                &&& same_session_core(final (self).rows()[k], old(self).rows()[k])
                &&& final (self).rows()[k].recording matches Some(nrec) && record_transition(
                    rec,
                    nrec,
                    data@,
                    now_ms,
                    lf.0@,
                    lf.1,
                )
            })),
    {
        let k = match self.find_index(id) {
            Option::Some(k) => k,
            Option::None => {
                return Err(PtyError::UnknownSession);
            },
        };
        let row = &mut self.sessions[k];
        match &mut row.recording {
            Option::None => {
                proof {
                    assert(final (self).rows() =~= old(self).rows());
                }
                Ok(None)
            },
            Option::Some(rec) => {
                let line_flush = rec.record_input(data, now_ms);
                proof {
                    lemma_update_keeps_wf(old(self).rows(), self.rows(), k as int);
                }
                Ok(Some(line_flush))
            },
        }
    }
}

/// True when two sessions agree on everything but the recording.
pub open spec fn same_session_core<H>(a: Session<H>, b: Session<H>) -> bool {
    a.id == b.id && a.name == b.name && a.command == b.command && a.handle == b.handle
}

/// Name membership over plain views (shared with `unique_name`).
pub open spec fn name_is_taken_views(names: Seq<Seq<char>>, s: Seq<char>) -> bool {
    names.contains(s)
}

/// Removing one row keeps the remaining pairs of rows intact.
proof fn lemma_remove_pairs<H>(pre: Seq<Session<H>>, k: int, i: int, j: int)
    requires
        0 <= k < pre.len(),
        0 <= i < j < pre.len() - 1,
    ensures
        exists|a: int, b: int|
            0 <= a < b < pre.len() && pre.remove(k)[i] == pre[a] && pre.remove(k)[j] == pre[b],
{
    let a = if i < k {
        i
    } else {
        i + 1
    };
    let b = if j < k {
        j
    } else {
        j + 1
    };
    assert(0 <= a < b < pre.len() && pre.remove(k)[i] == pre[a] && pre.remove(k)[j] == pre[b]);
}

/// Each row surviving a removal is one of the original rows, at its
/// original or shifted position.
proof fn lemma_remove_one<H>(pre: Seq<Session<H>>, k: int, i: int)
    requires
        0 <= k < pre.len(),
        0 <= i < pre.len() - 1,
    ensures
        i < k ==> pre.remove(k)[i] == pre[i],
        i >= k ==> pre.remove(k)[i] == pre[i + 1],
{
}

/// A row update that keeps id and name keeps the registry invariant's
/// per-row clauses.
proof fn lemma_update_keeps_wf<H>(pre: Seq<Session<H>>, post: Seq<Session<H>>, k: int)
    requires
        0 <= k < pre.len(),
        post.len() == pre.len(),
        forall|j: int| 0 <= j < pre.len() && j != k ==> post[j] == pre[j],
        post[k].id == pre[k].id,
        post[k].name == pre[k].name,
    ensures
        forall|i: int, j: int|
            #![trigger post[i].id@, post[j].id@]
            0 <= i < j < post.len() && pre[i].id@ != pre[j].id@ ==> post[i].id@ != post[j].id@,
        forall|i: int, j: int|
            #![trigger post[i].name@, post[j].name@]
            0 <= i < j < post.len() && pre[i].name@ != pre[j].name@ ==> post[i].name@
                != post[j].name@,
        forall|i: int| 0 <= i < post.len() ==> #[trigger] post[i].id@ == pre[i].id@,
{
}

} // verus!
