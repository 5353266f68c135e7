//! The protocol client: one language server's lifecycle, framing and
//! request correlation, composed as a state machine over plain values.
//!
//! The client owns no process and performs no I/O.  Each operation
//! either hands back the exact frame bytes the embedder must write to
//! the server's standard input, or consumes the raw bytes the embedder
//! read from its standard output and hands back the requests those
//! bytes resolve.  The lifecycle follows unstarted, starting,
//! initialized, shutting down, stopped; a spawn or initialize failure
//! leads straight to stopped.

use vstd::prelude::*;

use crate::correlator::{complete_step, Correlator};
use crate::framer::{encode_frame, feed_bytes, frame_bytes, init_model, DecoderModel, FrameDecoder};
use crate::json::{emit, json_wf, lemma_view_members_all, lemma_wf_members_intro, Json, JsonVal};
use crate::messages::{
    ascii_seq, empty_object, key_bytes, make_notification, make_request, spec_notification,
    spec_request, spec_response_of, OutcomeVal, RequestOutcome,
};
use crate::servers::LanguageServer;

verus! {

/// Where a client stands in its life.
#[derive(Clone, Copy, PartialEq, Eq, Structural, Debug)]
pub enum LifecycleState {
    Unstarted,
    Starting,
    Initialized,
    ShuttingDown,
    Stopped,
}

/// What can go wrong operating a client.
#[derive(Debug)]
pub enum LspError {
    /// The server executable is not on the execution path.
    NotInstalled,
    /// The server process could not be spawned.
    SpawnFailure,
    /// A frame or message body on the wire was malformed.
    FramingError,
    /// The server answered a request with an error payload.
    RemoteError(Json),
    /// The request was resolved by a shutdown or a closed stream.
    RequestCancelled,
    /// The operation is only valid on an initialized client.
    NotInitialized,
}

/// One resolved request: which id, the handle its caller waits on, and
/// the outcome to deliver through it.
pub struct Resolution<T> {
    pub id: u64,
    pub handle: T,
    pub outcome: RequestOutcome,
}

/// The models of a sequence of resolutions.
pub open spec fn res_views<T>(s: Seq<Resolution<T>>) -> Seq<(u64, T, OutcomeVal)> {
    s.map_values(|r: Resolution<T>| (r.id, r.handle, r.outcome@))
}

/// What a sequence of decoded bodies does to the pending table: each
/// response-shaped body whose id is pending resolves that id, in order;
/// everything else is ignored.
pub open spec fn process_bodies<T>(m: Map<u64, T>, bodies: Seq<Seq<u8>>) -> (
    Map<u64, T>,
    Seq<(u64, T, OutcomeVal)>,
)
    decreases bodies.len(),
{
    if bodies.len() == 0 {
        (m, Seq::empty())
    } else {
        let step = match spec_response_of(bodies[0]) {
            Some(p) => if m.dom().contains(p.0) {
                (m.remove(p.0), seq![(p.0, m[p.0], p.1)])
            } else {
                (m, Seq::<(u64, T, OutcomeVal)>::empty())
            },
            None => (m, Seq::<(u64, T, OutcomeVal)>::empty()),
        };
        let rest = process_bodies(step.0, bodies.drop_first());
        (rest.0, step.1 + rest.1)
    }
}

/// The `initialize` parameters: the editor process id, the workspace
/// root as a path and as a URI, and an empty capability set.
pub open spec fn spec_initialize_params(pid: u64, root: Seq<u8>) -> JsonVal {
    JsonVal::Obj(
        seq![
            (ascii_seq("processId"@), JsonVal::UInt(pid)),
            (ascii_seq("rootPath"@), JsonVal::Str(root)),
            (ascii_seq("rootUri"@), JsonVal::Str(ascii_seq("file://"@) + root)),
            (ascii_seq("capabilities"@), JsonVal::Obj(Seq::empty())),
        ],
    )
}

/// The definition-lookup parameters: the document's URI and the
/// position asked about.
pub open spec fn spec_definition_params(path: Seq<u8>, line: u32, character: u32) -> JsonVal {
    JsonVal::Obj(
        seq![
            (
                ascii_seq("textDocument"@),
                JsonVal::Obj(
                    seq![(ascii_seq("uri"@), JsonVal::Str(ascii_seq("file://"@) + path))],
                ),
            ),
            (
                ascii_seq("position"@),
                JsonVal::Obj(
                    seq![
                        (ascii_seq("line"@), JsonVal::UInt(line as u64)),
                        (ascii_seq("character"@), JsonVal::UInt(character as u64)),
                    ],
                ),
            ),
        ],
    )
}

/// The frames a shutdown writes and the requests it cancels.
pub struct ShutdownPlan<T> {
    /// The `shutdown` request frame and the `exit` notification frame,
    /// present when the client was initialized.
    pub frames: Option<(Vec<u8>, Vec<u8>)>,
    /// Every request that was pending, to be resolved with a
    /// cancellation outcome.
    pub cancelled: Vec<Resolution<T>>,
}

/// A language-server protocol client, sans I/O.
pub struct LspClient<T> {
    server_config: LanguageServer,
    state: LifecycleState,
    correlator: Correlator<T>,
    decoder: FrameDecoder,
}

/// What `shutdown` does.  From the initialized state it performs the
/// whole transition to stopped: both teardown frames are produced and
/// every pending request is cancelled with the given reason, in
/// registration order.  From any other state it changes nothing and
/// produces nothing.
pub open spec fn shutdown_step<T>(
    pre: LspClient<T>,
    reason: Seq<char>,
    plan: ShutdownPlan<T>,
    post: LspClient<T>,
) -> bool {
    if pre.state_spec() == LifecycleState::Initialized {
        &&& post.state_spec() == LifecycleState::Stopped
        &&& post.config_spec() == pre.config_spec()
        &&& post.pending() == Map::<u64, T>::empty()
        &&& post.pending_entries() == Seq::<(u64, T)>::empty()
        &&& (plan.frames matches Some(fs) && fs.0@ == frame_bytes(
            emit(
                spec_request(
                    pre.next_id_spec(),
                    ascii_seq("shutdown"@),
                    JsonVal::Obj(Seq::empty()),
                ),
            ),
        ) && fs.1@ == frame_bytes(
            emit(spec_notification(ascii_seq("exit"@), JsonVal::Obj(Seq::empty()))),
        ))
        &&& plan.cancelled@.len() == pre.pending_entries().len()
        &&& forall|k: int|
            0 <= k < plan.cancelled@.len() ==> res_views(plan.cancelled@)[k] == (
                pre.pending_entries()[k].0,
                pre.pending_entries()[k].1,
                OutcomeVal::Cancelled(reason),
            )
    } else {
        &&& post == pre
        &&& plan.frames is None
        &&& plan.cancelled@.len() == 0
    }
}

impl<T> LspClient<T> {
    /// The descriptor of the server this client speaks to.
    pub closed spec fn config_spec(&self) -> LanguageServer {
        self.server_config
    }

    /// Where the client stands in its life.
    pub closed spec fn state_spec(&self) -> LifecycleState {
        self.state
    }

    /// The pending-request table.
    pub closed spec fn pending(&self) -> Map<u64, T> {
        self.correlator.pending()
    }

    /// The pending requests in registration order.
    pub closed spec fn pending_entries(&self) -> Seq<(u64, T)> {
        self.correlator.entries_spec()
    }

    /// The id the next request will get.
    pub closed spec fn next_id_spec(&self) -> u64 {
        self.correlator.next_id_spec()
    }

    /// The framing state of the server's output stream.
    pub closed spec fn decoder_model(&self) -> DecoderModel {
        self.decoder.model()
    }

    /// The correlator's invariant holds.
    pub closed spec fn wf(&self) -> bool {
        self.correlator.wf()
    }

    /// A fresh client for the given server, not yet started.
    pub fn new(server_config: LanguageServer) -> (r: LspClient<T>)
        ensures
            r.wf(),
            r.state_spec() == LifecycleState::Unstarted,
            r.config_spec() == server_config,
            r.pending() == Map::<u64, T>::empty(),
            r.pending_entries() == Seq::<(u64, T)>::empty(),
            r.next_id_spec() == 1,
            r.decoder_model() == init_model(),
    {
        LspClient {
            server_config,
            state: LifecycleState::Unstarted,
            correlator: Correlator::new(),
            decoder: FrameDecoder::new(),
        }
    }

    /// Where the client stands in its life.
    pub fn state(&self) -> (r: LifecycleState)
        ensures
            r == self.state_spec(),
    {
        self.state
    }

    /// The descriptor of the server this client speaks to.
    pub fn config(&self) -> (r: &LanguageServer)
        ensures
            *r == self.config_spec(),
    {
        &self.server_config
    }

    /// The id the next request will get.
    pub fn next_request_id(&self) -> (r: u64)
        ensures
            r == self.next_id_spec(),
    {
        self.correlator.peek_next_id()
    }

    /// How many requests are pending.
    pub fn pending_count(&self) -> (r: usize)
        ensures
            r == self.pending_entries().len(),
    {
        self.correlator.pending_count()
    }

    /// Begins the start sequence — the embedder now spawns the server
    /// process; only an unstarted client can start.
    pub fn start(&mut self)
        requires
            old(self).state_spec() == LifecycleState::Unstarted,
        ensures
            final(self).state_spec() == LifecycleState::Starting,
            final(self).config_spec() == old(self).config_spec(),
            final(self).pending() == old(self).pending(),
            final(self).pending_entries() == old(self).pending_entries(),
            final(self).next_id_spec() == old(self).next_id_spec(),
            final(self).decoder_model() == old(self).decoder_model(),
            old(self).wf() ==> final(self).wf(),
    {
        self.state = LifecycleState::Starting;
    }

    /// Records that the server process could not be spawned: the start
    /// has failed and the client is stopped for good.
    pub fn spawn_failed(&mut self)
        requires
            old(self).state_spec() == LifecycleState::Starting,
        ensures
            final(self).state_spec() == LifecycleState::Stopped,
            final(self).config_spec() == old(self).config_spec(),
            final(self).pending() == old(self).pending(),
            final(self).pending_entries() == old(self).pending_entries(),
            final(self).next_id_spec() == old(self).next_id_spec(),
            final(self).decoder_model() == old(self).decoder_model(),
            old(self).wf() ==> final(self).wf(),
    {
        self.state = LifecycleState::Stopped;
    }

    /// The `initialize` request opening the handshake: registers a
    /// fresh id with the caller's handle and returns the id and the
    /// frame to write.
    pub fn initialize_request(&mut self, process_id: u64, root_path: &Vec<u8>, handle: T) -> (r: (
        u64,
        Vec<u8>,
    ))
        requires
            old(self).wf(),
            old(self).state_spec() == LifecycleState::Starting,
            old(self).next_id_spec() < u64::MAX,
        ensures
            final(self).wf(),
            r.0 == old(self).next_id_spec(),
            r.1@ == frame_bytes(
                emit(
                    spec_request(
                        r.0,
                        ascii_seq("initialize"@),
                        spec_initialize_params(process_id, root_path@),
                    ),
                ),
            ),
            final(self).state_spec() == old(self).state_spec(),
            final(self).config_spec() == old(self).config_spec(),
            final(self).next_id_spec() == r.0 + 1,
            final(self).pending() == old(self).pending().insert(r.0, handle),
            final(self).pending_entries() == old(self).pending_entries().push((r.0, handle)),
            final(self).decoder_model() == old(self).decoder_model(),
    {
        let params = initialize_params(process_id, root_path);
        let id = self.correlator.next_id();
        self.correlator.register(id, handle);
        proof {
            reveal_strlit("initialize");
            assert(vstd::string::is_ascii("initialize"));
        }
        let msg = make_request(id, "initialize", params);
        let body = crate::json::encode_json(&msg);
        let frame = encode_frame(&body);
        (id, frame)
    }

    /// Ends the handshake: on success the `initialized` notification
    /// frame is returned and the client is initialized; on failure —
    /// an initialize error or a stream closed early — the client is
    /// stopped.
    pub fn initialize_result(&mut self, success: bool) -> (r: Option<Vec<u8>>)
        requires
            old(self).state_spec() == LifecycleState::Starting,
        ensures
            final(self).config_spec() == old(self).config_spec(),
            final(self).pending() == old(self).pending(),
            final(self).pending_entries() == old(self).pending_entries(),
            final(self).next_id_spec() == old(self).next_id_spec(),
            final(self).decoder_model() == old(self).decoder_model(),
            old(self).wf() ==> final(self).wf(),
            success ==> final(self).state_spec() == LifecycleState::Initialized && (r matches Some(
                f,
            ) && f@ == frame_bytes(
                emit(
                    spec_notification(ascii_seq("initialized"@), JsonVal::Obj(Seq::empty())),
                ),
            )),
            !success ==> final(self).state_spec() == LifecycleState::Stopped && r is None,
    {
        if success {
            self.state = LifecycleState::Initialized;
            proof {
                reveal_strlit("initialized");
                assert(vstd::string::is_ascii("initialized"));
            }
            let msg = make_notification("initialized", empty_object());
            let body = crate::json::encode_json(&msg);
            Some(encode_frame(&body))
        } else {
            self.state = LifecycleState::Stopped;
            None
        }
    }

    /// Issues a request: a fresh id is registered with the caller's
    /// handle and the frame to write is returned.  Outside the
    /// initialized state nothing changes and the call fails.
    pub fn request(&mut self, method: &str, params: Json, handle: T) -> (r: Result<
        (u64, Vec<u8>),
        LspError,
    >)
        requires
            old(self).wf(),
            vstd::string::is_ascii(method),
            json_wf(params@),
            old(self).next_id_spec() < u64::MAX,
        ensures
            final(self).wf(),
            old(self).state_spec() != LifecycleState::Initialized ==> (r matches Err(
                LspError::NotInitialized,
            ) && *final(self) == *old(self)),
            old(self).state_spec() == LifecycleState::Initialized ==> (r matches Ok(p) && {
                &&& p.0 == old(self).next_id_spec()
                &&& p.1@ == frame_bytes(
                    emit(spec_request(p.0, ascii_seq(method@), params@)),
                )
                &&& final(self).state_spec() == old(self).state_spec()
                &&& final(self).config_spec() == old(self).config_spec()
                &&& final(self).next_id_spec() == p.0 + 1
                &&& final(self).pending() == old(self).pending().insert(p.0, handle)
                &&& final(self).pending_entries() == old(self).pending_entries().push(
                    (p.0, handle),
                )
                &&& final(self).decoder_model() == old(self).decoder_model()
            }),
    {
        let initialized = match self.state {
            LifecycleState::Initialized => true,
            _ => false,
        };
        if !initialized {
            return Err(LspError::NotInitialized);
        }
        let id = self.correlator.next_id();
        self.correlator.register(id, handle);
        let msg = make_request(id, method, params);
        let body = crate::json::encode_json(&msg);
        let frame = encode_frame(&body);
        Ok((id, frame))
    }

    /// Sends a fire-and-forget notification: no id, no registration,
    /// no resolution.  Outside the initialized state the call fails.
    pub fn notify(&mut self, method: &str, params: Json) -> (r: Result<Vec<u8>, LspError>)
        requires
            vstd::string::is_ascii(method),
            json_wf(params@),
        ensures
            *final(self) == *old(self),
            old(self).state_spec() != LifecycleState::Initialized ==> r matches Err(
                LspError::NotInitialized,
            ),
            old(self).state_spec() == LifecycleState::Initialized ==> (r matches Ok(f) && f@
                == frame_bytes(emit(spec_notification(ascii_seq(method@), params@)))),
    {
        let initialized = match self.state {
            LifecycleState::Initialized => true,
            _ => false,
        };
        if !initialized {
            return Err(LspError::NotInitialized);
        }
        let msg = make_notification(method, params);
        let body = crate::json::encode_json(&msg);
        Ok(encode_frame(&body))
    }

    /// Issues the definition-lookup request for a position in a file.
    pub fn goto_definition(
        &mut self,
        file_path: &Vec<u8>,
        line: u32,
        character: u32,
        handle: T,
    ) -> (r: Result<(u64, Vec<u8>), LspError>)
        requires
            old(self).wf(),
            old(self).next_id_spec() < u64::MAX,
        ensures
            final(self).wf(),
            old(self).state_spec() != LifecycleState::Initialized ==> (r matches Err(
                LspError::NotInitialized,
            ) && *final(self) == *old(self)),
            old(self).state_spec() == LifecycleState::Initialized ==> (r matches Ok(p) && {
                &&& p.0 == old(self).next_id_spec()
                &&& p.1@ == frame_bytes(
                    emit(
                        spec_request(
                            p.0,
                            ascii_seq("textDocument/definition"@),
                            spec_definition_params(file_path@, line, character),
                        ),
                    ),
                )
                &&& final(self).state_spec() == old(self).state_spec()
                &&& final(self).config_spec() == old(self).config_spec()
                &&& final(self).next_id_spec() == p.0 + 1
                &&& final(self).pending() == old(self).pending().insert(p.0, handle)
                &&& final(self).pending_entries() == old(self).pending_entries().push(
                    (p.0, handle),
                )
                &&& final(self).decoder_model() == old(self).decoder_model()
            }),
    {
        let params = definition_params(file_path, line, character);
        proof {
            reveal_strlit("textDocument/definition");
            assert(vstd::string::is_ascii("textDocument/definition"));
        }
        self.request("textDocument/definition", params, handle)
    }

    /// Consumes raw bytes read from the server's output: frames are
    /// decoded, each response-shaped message resolves its pending
    /// request, and everything else — notifications, server requests,
    /// corrupt frames — is contained without affecting the rest.
    /// Returns the resolutions to deliver and the framing-error count.
    pub fn on_chunk(&mut self, chunk: &[u8]) -> (r: (Vec<Resolution<T>>, usize))
        requires
            old(self).wf(),
        ensures
            final(self).wf(),
            final(self).state_spec() == old(self).state_spec(),
            final(self).config_spec() == old(self).config_spec(),
            final(self).next_id_spec() == old(self).next_id_spec(),
            ({
                let f = feed_bytes(old(self).decoder_model(), chunk@);
                let p = process_bodies(old(self).pending(), f.1);
                &&& final(self).decoder_model() == f.0
                &&& final(self).pending() == p.0
                &&& res_views(r.0@) == p.1
                &&& r.1 as nat == f.2
            }),
    {
        let (bodies, errs) = self.decoder.feed(chunk);
        let ghost msgs = bodies.deep_view();
        let mut out: Vec<Resolution<T>> = Vec::new();
        let mut i: usize = 0;
        proof {
            assert(msgs.skip(0) =~= msgs);
            match process_bodies(self.correlator.pending(), msgs.skip(0)) {
                (m, rs) => {
                    assert(res_views(out@) =~= Seq::<(u64, T, OutcomeVal)>::empty());
                    assert(res_views(out@) + rs =~= rs);
                },
            }
        }
        while i < bodies.len()
            invariant
                0 <= i <= bodies@.len(),
                msgs == bodies.deep_view(),
                msgs.len() == bodies@.len(),
                self.correlator.wf(),
                self.state == old(self).state_spec(),
                self.server_config == old(self).config_spec(),
                self.correlator.next_id_spec() == old(self).next_id_spec(),
                self.decoder.model() == feed_bytes(old(self).decoder_model(), chunk@).0,
                ({
                    let rest = process_bodies(self.correlator.pending(), msgs.skip(i as int));
                    process_bodies(old(self).pending(), msgs) == (
                        rest.0,
                        res_views(out@) + rest.1,
                    )
                }),
            decreases bodies@.len() - i,
        {
            let ghost pre_pending = self.correlator.pending();
            let ghost pre_out = out@;
            let body = &bodies[i];
            proof {
                assert(msgs[i as int] == bodies@[i as int].deep_view());
                assert(bodies@[i as int].deep_view() =~= body@);
                assert(msgs.skip(i as int)[0] == msgs[i as int]);
                assert(msgs.skip(i as int).drop_first() =~= msgs.skip(i as int + 1));
            }
            match crate::messages::response_of(body) {
                Some((id, outcome)) => {
                    let ghost oval = outcome@;
                    match self.correlator.complete(id) {
                        Some(handle) => {
                            out.push(Resolution { id, handle, outcome });
                            proof {
                                assert(res_views(out@) =~= res_views(pre_out) + seq![
                                    (id, out@.last().handle, oval),
                                ]);
                                assert(res_views(pre_out) + (seq![
                                    (id, out@.last().handle, oval),
                                ] + process_bodies(
                                    self.correlator.pending(),
                                    msgs.skip(i as int + 1),
                                ).1) =~= res_views(out@) + process_bodies(
                                    self.correlator.pending(),
                                    msgs.skip(i as int + 1),
                                ).1);
                            }
                        },
                        None => {
                            proof {
                                assert(res_views(out@) + process_bodies(
                                    self.correlator.pending(),
                                    msgs.skip(i as int + 1),
                                ).1 =~= res_views(pre_out) + (Seq::<(u64, T, OutcomeVal)>::empty()
                                    + process_bodies(
                                    self.correlator.pending(),
                                    msgs.skip(i as int + 1),
                                ).1));
                            }
                        },
                    }
                },
                None => {
                    proof {
                        assert(res_views(out@) + process_bodies(
                            self.correlator.pending(),
                            msgs.skip(i as int + 1),
                        ).1 =~= res_views(pre_out) + (Seq::<(u64, T, OutcomeVal)>::empty()
                            + process_bodies(
                            self.correlator.pending(),
                            msgs.skip(i as int + 1),
                        ).1));
                    }
                },
            }
            i = i + 1;
        }
        proof {
            assert(msgs.skip(msgs.len() as int) =~= Seq::<Seq<u8>>::empty());
            assert(res_views(out@) + Seq::<(u64, T, OutcomeVal)>::empty() =~= res_views(out@));
        }
        (out, errs)
    }

    /// The server's stream closed or its process exited: every pending
    /// request resolves with a cancellation outcome and the client is
    /// stopped.
    pub fn stream_closed(&mut self, reason: &str) -> (r: Vec<Resolution<T>>)
        requires
            old(self).wf(),
        ensures
            final(self).wf(),
            final(self).state_spec() == LifecycleState::Stopped,
            final(self).config_spec() == old(self).config_spec(),
            final(self).pending() == Map::<u64, T>::empty(),
            final(self).pending_entries() == Seq::<(u64, T)>::empty(),
            r@.len() == old(self).pending_entries().len(),
            forall|k: int|
                0 <= k < r@.len() ==> res_views(r@)[k] == (
                    old(self).pending_entries()[k].0,
                    old(self).pending_entries()[k].1,
                    OutcomeVal::Cancelled(reason@),
                ),
    {
        let entries = self.correlator.cancel_all();
        let cancelled = cancel_resolutions(entries, reason);
        self.state = LifecycleState::Stopped;
        cancelled
    }

    /// Tears the client down, idempotently: see [`shutdown_step`].
    pub fn shutdown(&mut self, reason: &str) -> (r: ShutdownPlan<T>)
        requires
            old(self).wf(),
        ensures
            final(self).wf(),
            shutdown_step(*old(self), reason@, r, *final(self)),
    {
        let initialized = match self.state {
            LifecycleState::Initialized => true,
            _ => false,
        };
        if !initialized {
            return ShutdownPlan { frames: None, cancelled: Vec::new() };
        }
        self.state = LifecycleState::ShuttingDown;
        let id = self.correlator.peek_next_id();
        proof {
            reveal_strlit("shutdown");
            assert(vstd::string::is_ascii("shutdown"));
            reveal_strlit("exit");
            assert(vstd::string::is_ascii("exit"));
        }
        let shutdown_msg = make_request(id, "shutdown", empty_object());
        let shutdown_body = crate::json::encode_json(&shutdown_msg);
        let shutdown_frame = encode_frame(&shutdown_body);
        let exit_msg = make_notification("exit", empty_object());
        let exit_body = crate::json::encode_json(&exit_msg);
        let exit_frame = encode_frame(&exit_body);
        let entries = self.correlator.cancel_all();
        let cancelled = cancel_resolutions(entries, reason);
        self.state = LifecycleState::Stopped;
        ShutdownPlan { frames: Some((shutdown_frame, exit_frame)), cancelled }
    }
}

/// Turns drained pending entries into cancellation resolutions, in
/// order.
fn cancel_resolutions<T>(entries: Vec<(u64, T)>, reason: &str) -> (r: Vec<Resolution<T>>)
    ensures
        r@.len() == entries@.len(),
        forall|k: int|
            0 <= k < r@.len() ==> res_views(r@)[k] == (
                entries@[k].0,
                entries@[k].1,
                OutcomeVal::Cancelled(reason@),
            ),
{
    let ghost entries0 = entries@;
    let mut rest = entries;
    let mut out: Vec<Resolution<T>> = Vec::new();
    while rest.len() > 0
        invariant
            out@.len() + rest@.len() == entries0.len(),
            rest@ =~= entries0.skip(out@.len() as int),
            forall|k: int|
                0 <= k < out@.len() ==> res_views(out@)[k] == (
                    entries0[k].0,
                    entries0[k].1,
                    OutcomeVal::Cancelled(reason@),
                ),
        decreases rest@.len(),
    {
        let ghost pre_out = out@;
        let e = rest.remove(0);
        proof {
            assert(e == entries0[pre_out.len() as int]);
        }
        out.push(Resolution { id: e.0, handle: e.1, outcome: RequestOutcome::Cancelled(reason.to_owned()) });
        proof {
            assert forall|k: int| 0 <= k < out@.len() implies res_views(out@)[k] == (
                entries0[k].0,
                entries0[k].1,
                OutcomeVal::Cancelled(reason@),
            ) by {
                if k < pre_out.len() {
                    assert(res_views(out@)[k] == res_views(pre_out)[k]);
                } else {
                    assert(k == pre_out.len());
                    assert(res_views(out@)[k] == (e.0, e.1, OutcomeVal::Cancelled(reason@)));
                }
            }
            assert(rest@ =~= entries0.skip(out@.len() as int));
        }
    }
    out
}

/// Builds the `initialize` parameters.
fn initialize_params(process_id: u64, root_path: &Vec<u8>) -> (r: Json)
    ensures
        r@ == spec_initialize_params(process_id, root_path@),
        json_wf(r@),
{
    proof {
        reveal_strlit("processId");
        reveal_strlit("rootPath");
        reveal_strlit("rootUri");
        reveal_strlit("capabilities");
        reveal_strlit("file://");
        assert(vstd::string::is_ascii("processId"));
        assert(vstd::string::is_ascii("rootPath"));
        assert(vstd::string::is_ascii("rootUri"));
        assert(vstd::string::is_ascii("capabilities"));
        assert(vstd::string::is_ascii("file://"));
    }
    let uri = file_uri(root_path);
    let root_copy = vstd::slice::slice_to_vec(root_path.as_slice());
    let mut fields: Vec<(Vec<u8>, Json)> = Vec::new();
    fields.push((key_bytes("processId"), Json::UInt(process_id)));
    fields.push((key_bytes("rootPath"), Json::Str(root_copy)));
    fields.push((key_bytes("rootUri"), Json::Str(uri)));
    fields.push((key_bytes("capabilities"), empty_object()));
    let r = Json::Obj(fields);
    proof {
        lemma_view_members_all(fields);
        let ms = crate::json::view_members(fields, 0);
        let target = spec_initialize_params(process_id, root_path@)->Obj_0;
        assert forall|k: int| 0 <= k < ms.len() implies ms[k] == target[k] by {
            assert(ms[k] == crate::json::view_member(fields@[k]));
            assert(crate::json::view_members(fields@[3].1->Obj_0, 0) =~= Seq::<
                (Seq<u8>, JsonVal),
            >::empty());
        }
        assert(ms =~= target);
        assert forall|k: int| 0 <= k < ms.len() implies json_wf((#[trigger] ms[k]).1) by {
            assert(crate::json::view_members(fields@[3].1->Obj_0, 0) =~= Seq::<
                (Seq<u8>, JsonVal),
            >::empty());
        }
        lemma_wf_members_intro(ms, 0);
    }
    r
}

/// Builds the definition-lookup parameters.
fn definition_params(file_path: &Vec<u8>, line: u32, character: u32) -> (r: Json)
    ensures
        r@ == spec_definition_params(file_path@, line, character),
        json_wf(r@),
{
    proof {
        reveal_strlit("textDocument");
        reveal_strlit("position");
        reveal_strlit("uri");
        reveal_strlit("line");
        reveal_strlit("character");
        assert(vstd::string::is_ascii("textDocument"));
        assert(vstd::string::is_ascii("position"));
        assert(vstd::string::is_ascii("uri"));
        assert(vstd::string::is_ascii("line"));
        assert(vstd::string::is_ascii("character"));
    }
    let uri = file_uri(file_path);
    let mut doc_fields: Vec<(Vec<u8>, Json)> = Vec::new();
    doc_fields.push((key_bytes("uri"), Json::Str(uri)));
    let doc = Json::Obj(doc_fields);
    let mut pos_fields: Vec<(Vec<u8>, Json)> = Vec::new();
    pos_fields.push((key_bytes("line"), Json::UInt(line as u64)));
    pos_fields.push((key_bytes("character"), Json::UInt(character as u64)));
    let pos = Json::Obj(pos_fields);
    let mut fields: Vec<(Vec<u8>, Json)> = Vec::new();
    fields.push((key_bytes("textDocument"), doc));
    fields.push((key_bytes("position"), pos));
    let r = Json::Obj(fields);
    proof {
        lemma_view_members_all(doc_fields);
        lemma_view_members_all(pos_fields);
        lemma_view_members_all(fields);
        let dms = crate::json::view_members(doc_fields, 0);
        let pms = crate::json::view_members(pos_fields, 0);
        let ms = crate::json::view_members(fields, 0);
        assert forall|k: int| 0 <= k < dms.len() implies dms[k] == seq![
            (ascii_seq("uri"@), JsonVal::Str(ascii_seq("file://"@) + file_path@)),
        ][k] by {
            assert(dms[k] == crate::json::view_member(doc_fields@[k]));
        }
        assert(dms =~= seq![(ascii_seq("uri"@), JsonVal::Str(ascii_seq("file://"@) + file_path@))]);
        assert forall|k: int| 0 <= k < pms.len() implies pms[k] == seq![
            (ascii_seq("line"@), JsonVal::UInt(line as u64)),
            (ascii_seq("character"@), JsonVal::UInt(character as u64)),
        ][k] by {
            assert(pms[k] == crate::json::view_member(pos_fields@[k]));
        }
        assert(pms =~= seq![
            (ascii_seq("line"@), JsonVal::UInt(line as u64)),
            (ascii_seq("character"@), JsonVal::UInt(character as u64)),
        ]);
        let target = spec_definition_params(file_path@, line, character)->Obj_0;
        assert forall|k: int| 0 <= k < ms.len() implies ms[k] == target[k] by {
            assert(ms[k] == crate::json::view_member(fields@[k]));
        }
        assert(ms =~= target);
        lemma_wf_members_intro(dms, 0);
        lemma_wf_members_intro(pms, 0);
        assert forall|k: int| 0 <= k < ms.len() implies json_wf((#[trigger] ms[k]).1) by {
            assert(ms[k] == crate::json::view_member(fields@[k]));
        }
        lemma_wf_members_intro(ms, 0);
    }
    r
}

/// Builds a `file://` URI from a path's bytes.
fn file_uri(path: &Vec<u8>) -> (r: Vec<u8>)
    ensures
        r@ == ascii_seq("file://"@) + path@,
{
    proof {
        reveal_strlit("file://");
        assert(vstd::string::is_ascii("file://"));
    }
    let mut r = key_bytes("file://");
    let mut i: usize = 0;
    while i < path.len()
        invariant
            0 <= i <= path@.len(),
            r@ == ascii_seq("file://"@) + path@.subrange(0, i as int),
        decreases path@.len() - i,
    {
        r.push(path[i]);
        proof {
            assert(r@ =~= ascii_seq("file://"@) + path@.subrange(0, i + 1));
        }
        i = i + 1;
    }
    proof {
        assert(path@.subrange(0, path@.len() as int) =~= path@);
    }
    r
}

/// Shutting down is idempotent and runs its transition exactly once:
/// from the initialized state one call performs the whole passage to
/// stopped — frames produced, every pending request cancelled — and a
/// second call changes nothing and produces nothing.
pub proof fn lemma_shutdown_idempotent<T>(
    c0: LspClient<T>,
    reason1: Seq<char>,
    p1: ShutdownPlan<T>,
    c1: LspClient<T>,
    reason2: Seq<char>,
    p2: ShutdownPlan<T>,
    c2: LspClient<T>,
)
    requires
        c0.state_spec() == LifecycleState::Initialized,
        shutdown_step(c0, reason1, p1, c1),
        shutdown_step(c1, reason2, p2, c2),
    ensures
        c1.state_spec() == LifecycleState::Stopped,
        p1.frames is Some,
        c2 == c1,
        p2.frames is None,
        p2.cancelled@.len() == 0,
{
}

} // verus!
