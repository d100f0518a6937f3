//! Transfer decode pipeline: feed raw QR bytes (transport packets), drive the
//! RaptorQ session, and hand back a finished file/text payload.
use crate::fec::fec_decoded;
use crate::fec::fresh_session;
use crate::fec::is_session_supported;
use crate::fec::raw_inflate;
use crate::fec::session_supported;
use crate::fec::session_symbol_size;
use crate::fec::spec_unwrap_inflated;
use crate::fec::unwrap_payload;
use crate::fec::RaptorQSession;
use crate::fec::SessionKey;
use crate::fec::SessionModel;
use crate::fec::max1;
use crate::fec::pair_lt;
use crate::fec::sum_u32;
use crate::fec::PAYLOAD_ID_BYTES;
use crate::protocol::byte_views;
use crate::protocol::parse_packet;
use crate::protocol::spec_parse_packet;
use crate::protocol::PacketHeader;
use crate::protocol::RAPTORQ_SYMBOL_INDEX;
use crate::text::push_str;
use std::path::PathBuf;
use std::time::Instant;
use vstd::prelude::*;

verus! {

#[verifier::external_type_specification]
#[verifier::external_body]
pub struct ExPathBuf(PathBuf);

#[verifier::external_type_specification]
#[verifier::external_body]
pub struct ExInstant(Instant);

/// The text a path buffer holds, as `Path::to_str` gives it (`None` when
/// it is not Unicode).
pub uninterp spec fn path_text(p: PathBuf) -> Option<Seq<char>>;

/// `PathBuf::new`: an empty path, whose text is empty.
#[verifier::external_body]
fn empty_path() -> (r: PathBuf)
    ensures
        path_text(r) == Some(Seq::<char>::empty()),
{
    PathBuf::new()
}

/// `PathBuf::clone`: the same path.
#[verifier::external_body]
fn clone_path(p: &PathBuf) -> (r: PathBuf)
    ensures
        r == *p,
{
    p.clone()
}

/// `Instant::now`: the current instant of the monotonic clock.
#[verifier::external_body]
fn instant_now() -> Instant {
    Instant::now()
}

/// `Instant::elapsed` in nanoseconds: depends on the clock, so nothing is
/// stated of the value.
#[verifier::external_body]
fn nanos_since(origin: &Instant) -> u64 {
    origin.elapsed().as_nanos() as u64
}

/// How long after the last packet of a finished transfer the same
/// (length, payload-size) key is still treated as the same looping stream,
/// in nanoseconds (5 s). A longer silence means the sender stopped, so a
/// manual re-send is allowed.
pub const STREAM_IDLE_RESET_NANOS: u64 = 5_000_000_000;

/// A fully decoded transfer.
#[derive(Debug, Clone)]
pub struct CompletedTransfer {
    pub filename: String,
    pub body: Vec<u8>,
    pub is_text: bool,
}

/// Outcome of feeding one decoded QR symbol's bytes.
pub enum FeedResult {
    /// Not a valid RaptorQ transport packet (wrong magic/CRC/symbol index).
    Ignored,
    /// A valid packet was accepted; the transfer is still in progress.
    Progress,
    /// The transfer completed.
    Completed(CompletedTransfer),
    /// The transfer completed again with exactly the same content, or a
    /// packet of a finished transfer whose stream is still looping: must not
    /// be saved twice.
    Duplicate,
}

/// Abstract outcome of a feed.
pub enum FeedOutcome {
    Ignored,
    Progress,
    Completed { filename: Seq<char>, body: Seq<u8>, is_text: bool },
    Duplicate,
}

impl FeedResult {
    pub open spec fn outcome(&self) -> FeedOutcome {
        match self {
            FeedResult::Ignored => FeedOutcome::Ignored,
            FeedResult::Progress => FeedOutcome::Progress,
            FeedResult::Completed(t) => FeedOutcome::Completed {
                filename: t.filename@,
                body: t.body@,
                is_text: t.is_text,
            },
            FeedResult::Duplicate => FeedOutcome::Duplicate,
        }
    }
}

/// The finished transfer whose stream may still be looping.
struct CompletedState {
    key: SessionKey,
    filename: String,
    path: PathBuf,
    bytes: usize,
    blocks: Vec<(u8, u32, u32)>,
    last_seen: u64,
}

/// Abstract finished-transfer record.
pub struct CompletedModel {
    pub key: SessionKey,
    pub filename: Seq<char>,
    pub path: PathBuf,
    pub bytes: usize,
    pub blocks: Seq<(u8, u32, u32)>,
    /// Clock reading (nanoseconds) of the stream's last packet.
    pub last_seen: u64,
}

/// Abstract tracker state.
pub struct TrackerModel {
    pub session: Option<(SessionKey, SessionModel)>,
    pub session_seq: u64,
    pub last_completed: Option<(SessionKey, Seq<u8>)>,
    pub completed: Option<CompletedModel>,
}

/// Tracks the current transfer and decodes symbols as they arrive.
pub struct TransferTracker {
    session: Option<(SessionKey, RaptorQSession)>,
    /// Monotonic id of the session in progress, for diagnostics.
    session_seq: u64,
    /// Last fully decoded transfer, used to suppress re-saving the same file
    /// when the sender's stream loops.
    last_completed: Option<(SessionKey, Vec<u8>)>,
    /// The finished transfer whose stream is still looping: its packets are
    /// ignored instead of being decoded all over again.
    completed: Option<CompletedState>,
    /// Origin of the clock readings kept in `completed`.
    origin: Instant,
}

// ─── The feed step, abstractly ──────────────────────────────────────────────

/// A RaptorQ transport packet that a session can be made for: the parsed
/// header and payload.
pub open spec fn accepted_packet(raw: Seq<u8>) -> Option<(PacketHeader, Seq<u8>)> {
    match spec_parse_packet(raw) {
        Ok((h, payload)) => if h.symbol_index == RAPTORQ_SYMBOL_INDEX && payload.len()
            > PAYLOAD_ID_BYTES && session_supported(h.data_length as u64, payload.len() as int) {
            Some((h, payload))
        } else {
            None
        },
        Err(_) => None,
    }
}

pub open spec fn key_of(h: PacketHeader, payload: Seq<u8>) -> SessionKey {
    SessionKey { data_length: h.data_length, transport_payload_size: payload.len() as usize }
}

/// The session key of an accepted packet.
pub open spec fn raw_key(raw: Seq<u8>) -> SessionKey {
    let (h, payload) = accepted_packet(raw)->0;
    key_of(h, payload)
}

pub open spec fn elapsed(now: u64, since: u64) -> int {
    if now >= since {
        now - since
    } else {
        0
    }
}

/// The stream of a finished transfer with this key is still looping at `now`.
pub open spec fn still_looping(m: TrackerModel, key: SessionKey, now: u64) -> bool {
    m.completed matches Some(c) && c.key == key && elapsed(now, c.last_seen)
        < STREAM_IDLE_RESET_NANOS
}

/// The session that a packet with `key` is pushed into, and the session id.
pub open spec fn session_for(m: TrackerModel, key: SessionKey) -> (SessionModel, u64) {
    match m.session {
        Some((k, s)) => if k == key {
            (s, m.session_seq)
        } else {
            (
                fresh_session(key.data_length as u64, key.transport_payload_size as int),
                (m.session_seq + 1) as u64,
            )
        },
        None => (
            fresh_session(key.data_length as u64, key.transport_payload_size as int),
            (m.session_seq + 1) as u64,
        ),
    }
}

pub open spec fn default_name(is_text: bool) -> Seq<char> {
    if is_text {
        "raptorqr-text.txt"@
    } else {
        "raptorqr-file.bin"@
    }
}

/// The filename a completed transfer is reported under.
pub open spec fn completed_name(name: Seq<char>, is_text: bool) -> Seq<char> {
    if name.len() == 0 {
        default_name(is_text)
    } else {
        name
    }
}

/// One feed: `m` and a packet `raw` read at clock reading `now` lead to the
/// state `n` and the outcome `r`. A new completion has an empty saved path
/// and 0 bytes until `mark_saved` records where it was saved.
pub open spec fn feed_step(
    m: TrackerModel,
    raw: Seq<u8>,
    now: u64,
    n: TrackerModel,
    r: FeedOutcome,
) -> bool {
    match accepted_packet(raw) {
        None => n == m && r == FeedOutcome::Ignored,
        Some((h, payload)) => {
            let key = key_of(h, payload);
            if still_looping(m, key, now) {
                &&& n == TrackerModel {
                    completed: Some(CompletedModel { last_seen: now, ..m.completed->0 }),
                    ..m
                }
                &&& r == FeedOutcome::Duplicate
            } else {
                let (s, seq) = session_for(m, key);
                if !s.accepts(payload) {
                    &&& n == TrackerModel {
                        session: Some((key, s)),
                        session_seq: seq,
                        completed: None,
                        ..m
                    }
                    &&& r == FeedOutcome::Progress
                } else {
                    let s2 = s.after_push(payload);
                    match fec_decoded(s2.config(), s2.fed) {
                        None => {
                            &&& n == TrackerModel {
                                session: Some((key, s2)),
                                session_seq: seq,
                                completed: None,
                                ..m
                            }
                            &&& r == FeedOutcome::Progress
                        },
                        Some(decoded) => {
                            let unwrapped = spec_unwrap_inflated(
                                if h.compressed {
                                    raw_inflate(decoded)
                                } else {
                                    decoded
                                },
                                h.is_text,
                            );
                            let filename = completed_name(unwrapped.0, h.is_text);
                            let body = unwrapped.1;
                            let repeated = m.last_completed == Some((key, body));
                            &&& n.session is None
                            &&& n.session_seq == seq
                            &&& n.last_completed == Some((key, body))
                            &&& n.completed matches Some(c) && c.key == key && c.filename
                                == filename && c.bytes == 0 && c.blocks == s2.block_progress()
                                && c.last_seen == now && path_text(c.path) == Some(
                                Seq::<char>::empty(),
                            )
                            &&& r == if repeated {
                                FeedOutcome::Duplicate
                            } else {
                                FeedOutcome::Completed { filename, body, is_text: h.is_text }
                            }
                        },
                    }
                }
            }
        },
    }
}

impl View for CompletedState {
    type V = CompletedModel;

    closed spec fn view(&self) -> CompletedModel {
        CompletedModel {
            key: self.key,
            filename: self.filename@,
            path: self.path,
            bytes: self.bytes,
            blocks: self.blocks@,
            last_seen: self.last_seen,
        }
    }
}

impl View for TransferTracker {
    type V = TrackerModel;

    closed spec fn view(&self) -> TrackerModel {
        TrackerModel {
            session: match self.session {
                Some((k, s)) => Some((k, s@)),
                None => None,
            },
            session_seq: self.session_seq,
            last_completed: match self.last_completed {
                Some((k, b)) => Some((k, b@)),
                None => None,
            },
            completed: match self.completed {
                Some(c) => Some(c@),
                None => None,
            },
        }
    }
}

/// Byte-wise equality.
fn bytes_equal(a: &[u8], b: &[u8]) -> (r: bool)
    ensures
        r == (a@ == b@),
{
    if a.len() != b.len() {
        return false;
    }
    let mut i: usize = 0;
    while i < a.len()
        invariant
            a@.len() == b@.len(),
            i <= a@.len(),
            forall|j: int| 0 <= j < i ==> a@[j] == b@[j],
        decreases a@.len() - i,
    {
        if a[i] != b[i] {
            return false;
        }
        i = i + 1;
    }
    assert(a@ =~= b@);
    true
}

/// A copy of a byte vector.
fn copy_bytes(v: &Vec<u8>) -> (r: Vec<u8>)
    ensures
        r@ == v@,
{
    crate::protocol::copy_range(v.as_slice(), 0, v.len())
}

impl TransferTracker {
    /// Well-formedness: the session in progress is well formed and belongs
    /// to its key.
    pub closed spec fn wf(&self) -> bool {
        match &self.session {
            Some((k, s)) => s.wf() && s@.data_length == k.data_length as u64
                && s@.symbol_size as int == session_symbol_size(k.transport_payload_size as int),
            None => true,
        }
    }

    pub fn new() -> (t: Self)
        ensures
            t.wf(),
            t@ == (TrackerModel {
                session: None,
                session_seq: 0,
                last_completed: None,
                completed: None,
            }),
    {
        assert(initial_tracker() == TrackerModel {
            session: None,
            session_seq: 0,
            last_completed: None,
            completed: None,
        });
        TransferTracker {
            session: None,
            session_seq: 0,
            last_completed: None,
            completed: None,
            origin: instant_now(),
        }
    }

    /// Feed raw bytes decoded from one QR symbol, at clock reading `now`
    /// (nanoseconds).
    pub fn feed_at(&mut self, raw: &[u8], now: u64) -> (r: FeedResult)
        requires
            old(self).wf(),
            old(self)@.session_seq < u64::MAX,
        ensures
            final(self).wf(),
            feed_step(old(self)@, raw@, now, final(self)@, r.outcome()),
    {
        let packet = match parse_packet(raw) {
            Ok(p) => p,
            Err(_) => return FeedResult::Ignored,
        };
        if packet.header.symbol_index != RAPTORQ_SYMBOL_INDEX {
            return FeedResult::Ignored;
        }
        let size = packet.payload.len();
        if size <= PAYLOAD_ID_BYTES {
            return FeedResult::Ignored;
        }
        let data_length = packet.header.data_length;
        if !is_session_supported(data_length as u64, size) {
            return FeedResult::Ignored;
        }
        let key = SessionKey { data_length, transport_payload_size: size };
        let ghost m = self@;
        assert(accepted_packet(raw@) == Some((packet.header, packet.payload@)));

        // A finished transfer keeps looping on the sender: ignore its packets
        // (the file is already received) instead of decoding it again.
        match self.completed.take() {
            Some(mut done) => {
                let gap = if now >= done.last_seen {
                    now - done.last_seen
                } else {
                    0
                };
                if done.key == key && gap < STREAM_IDLE_RESET_NANOS {
                    done.last_seen = now;
                    self.completed = Some(done);
                    assert(self@ =~= TrackerModel {
                        completed: Some(CompletedModel { last_seen: now, ..m.completed->0 }),
                        ..m
                    });
                    return FeedResult::Duplicate;
                }
            },
            None => {},
        }
        assert(!still_looping(m, key, now));

        // Start a new session when metadata differs from the current one.
        let needs_new = match &self.session {
            Some((k, _)) => *k != key,
            None => true,
        };
        let ghost sf = session_for(m, key);
        let (k, mut session) = if needs_new {
            self.session = None;
            self.session_seq = self.session_seq + 1;
            (key, RaptorQSession::new(data_length as u64, size))
        } else {
            match self.session.take() {
                Some(pair) => pair,
                None => {
                    assert(false);
                    (key, RaptorQSession::new(data_length as u64, size))
                },
            }
        };
        assert(k == key);
        assert(session@ == sf.0);
        assert(self.session_seq == sf.1);
        let decoded = session.push(packet.payload.as_slice());
        match decoded {
            None => {
                self.session = Some((key, session));
                assert(self@ =~= TrackerModel {
                    session: Some((key, session@)),
                    session_seq: sf.1,
                    completed: None,
                    ..m
                });
                FeedResult::Progress
            },
            Some(decoded) => {
                let blocks = session.per_block_progress();
                let (name, body) = unwrap_payload(
                    decoded,
                    packet.header.compressed,
                    packet.header.is_text,
                );
                let filename = if name.as_str().is_empty() {
                    let mut d = String::new();
                    if packet.header.is_text {
                        push_str(&mut d, "raptorqr-text.txt");
                    } else {
                        push_str(&mut d, "raptorqr-file.bin");
                    }
                    d
                } else {
                    name
                };
                // The sender loops its stream, so the very same transfer
                // decodes again on every pass — only report it once.
                let repeated = match &self.last_completed {
                    Some((done_key, done_body)) => *done_key == key && bytes_equal(
                        done_body.as_slice(),
                        body.as_slice(),
                    ),
                    None => false,
                };
                self.last_completed = Some((key, copy_bytes(&body)));
                self.completed = Some(
                    CompletedState {
                        key,
                        filename: filename.clone(),
                        path: empty_path(),
                        bytes: 0,
                        blocks,
                        last_seen: now,
                    },
                );
                if repeated {
                    FeedResult::Duplicate
                } else {
                    FeedResult::Completed(
                        CompletedTransfer { filename, body, is_text: packet.header.is_text },
                    )
                }
            },
        }
    }

    /// Feed raw bytes decoded from one QR symbol, read now on the monotonic
    /// clock: the step is the one `feed_at` takes at some clock reading.
    pub fn feed(&mut self, raw: &[u8]) -> (r: FeedResult)
        requires
            old(self).wf(),
            old(self)@.session_seq < u64::MAX,
        ensures
            final(self).wf(),
            exists|now: u64| feed_step(old(self)@, raw@, now, final(self)@, r.outcome()),
    {
        let now = nanos_since(&self.origin);
        self.feed_at(raw, now)
    }

    /// Progress of the transfer in flight — or of the one that just finished,
    /// so the UI keeps showing 100% while the sender loops.
    pub fn progress_status(&self) -> (r: Option<TransferProgress>)
        requires
            self.wf(),
        ensures
            match self@.session {
                Some((k, s)) => r matches Some(p) && p.key == k && p.received == sum_u32(
                    s.block_seen,
                ) && p.total == max1(s.total_source_symbols as int) && p.blocks@
                    == s.block_progress() && p.complete is None,
                None => match self@.completed {
                    Some(c) => r matches Some(p) && p.key == c.key && p.received == 1 && p.total
                        == 1 && p.blocks@ == c.blocks && (p.complete matches Some(t) && t.0@
                        == c.filename && t.1 == c.path && t.2 == c.bytes),
                    None => r is None,
                },
            },
    {
        match &self.session {
            Some((key, session)) => {
                let (received, total) = session.progress_counts();
                Some(
                    TransferProgress {
                        key: *key,
                        received,
                        total,
                        blocks: session.per_block_progress(),
                        complete: None,
                    },
                )
            },
            None => match &self.completed {
                Some(done) => Some(
                    TransferProgress {
                        key: done.key,
                        received: 1,
                        total: 1,
                        blocks: copy_blocks(&done.blocks),
                        complete: Some((done.filename.clone(), clone_path(&done.path), done.bytes)),
                    },
                ),
                None => None,
            },
        }
    }

    /// Record where a finished transfer was saved (called by the receiver).
    pub fn mark_saved(&mut self, path: PathBuf, bytes: usize)
        requires
            old(self).wf(),
        ensures
            final(self).wf(),
            final(self)@ == (match old(self)@.completed {
                Some(c) => TrackerModel {
                    completed: Some(CompletedModel { path, bytes, ..c }),
                    ..old(self)@
                },
                None => old(self)@,
            }),
    {
        let ghost m = self@;
        match self.completed.take() {
            Some(mut done) => {
                done.path = path;
                done.bytes = bytes;
                self.completed = Some(done);
                assert(self@ =~= TrackerModel {
                    completed: Some(CompletedModel { path, bytes, ..m.completed->0 }),
                    ..m
                });
            },
            None => {},
        }
    }

    /// Key of the transfer in progress, for diagnostics.
    pub fn session_key(&self) -> (r: Option<SessionKey>)
        ensures
            r == (match self@.session {
                Some((k, _)) => Some(k),
                None => None,
            }),
    {
        match &self.session {
            Some((key, _)) => Some(*key),
            None => None,
        }
    }

    /// Id of the session in progress (increments whenever it is recreated).
    pub fn session_seq(&self) -> (r: u64)
        ensures
            r == self@.session_seq,
    {
        self.session_seq
    }

    /// Accepted (block, ESI) pairs of the transfer in progress, sorted.
    pub fn received_esis(&self) -> (r: Vec<(u8, u32)>)
        requires
            self.wf(),
        ensures
            match self@.session {
                Some((_, s)) => (forall|p: (u8, u32)| r@.contains(p) <==> s.seen.contains(p)) && (
                forall|i: int, j: int| 0 <= i < j < r@.len() ==> pair_lt(r@[i], r@[j])),
                None => r@.len() == 0,
            },
    {
        match &self.session {
            Some((_, session)) => session.received_esis(),
            None => Vec::new(),
        }
    }

    /// Forget the transfer in progress and the finished one.
    pub fn reset(&mut self)
        requires
            old(self).wf(),
        ensures
            final(self).wf(),
            final(self)@ == (TrackerModel { session: None, completed: None, ..old(self)@ }),
    {
        self.session = None;
        self.completed = None;
    }
}

impl Default for TransferTracker {
    fn default() -> (t: Self)
        ensures
            t.wf(),
            t@ == initial_tracker(),
    {
        Self::new()
    }
}

/// The state of a new tracker.
pub open spec fn initial_tracker() -> TrackerModel {
    TrackerModel { session: None, session_seq: 0, last_completed: None, completed: None }
}

/// Progress of a transfer: `received / total` source symbols (1/1 once
/// complete), the per-block progress, and, once complete, (filename, saved
/// path, bytes).
pub struct TransferProgress {
    pub key: SessionKey,
    pub received: u64,
    pub total: u64,
    pub blocks: Vec<(u8, u32, u32)>,
    pub complete: Option<(String, PathBuf, usize)>,
}

fn copy_blocks(v: &Vec<(u8, u32, u32)>) -> (r: Vec<(u8, u32, u32)>)
    ensures
        r@ == v@,
{
    let mut out: Vec<(u8, u32, u32)> = Vec::with_capacity(v.len());
    let mut i: usize = 0;
    while i < v.len()
        invariant
            i <= v@.len(),
            out@ == v@.take(i as int),
        decreases v@.len() - i,
    {
        out.push(v[i]);
        i = i + 1;
        assert(out@ =~= v@.take(i as int));
    }
    assert(v@.take(v@.len() as int) =~= v@);
    out
}

/// Whether feeding `raw` at `now` starts a new session: an accepted packet
/// of a stream that is not looping as already complete, whose key is not
/// that of the session in progress.
pub open spec fn starts_session(m: TrackerModel, raw: Seq<u8>, now: u64) -> bool {
    match accepted_packet(raw) {
        Some((h, payload)) => {
            let key = key_of(h, payload);
            &&& !still_looping(m, key, now)
            &&& !(m.session matches Some((k, s)) && k == key)
        },
        None => false,
    }
}

/// The session id counts the sessions started: a feed raises it by one
/// exactly when it starts a new session, and leaves it unchanged otherwise.
pub proof fn lemma_feed_step_seq(
    m: TrackerModel,
    raw: Seq<u8>,
    now: u64,
    n: TrackerModel,
    r: FeedOutcome,
)
    requires
        feed_step(m, raw, now, n, r),
        m.session_seq < u64::MAX,
    ensures
        n.session_seq == if starts_session(m, raw, now) {
            m.session_seq + 1
        } else {
            m.session_seq as int
        },
{
}

/// Over any run of feeds the session id never decreases, and it grows by at
/// most one per feed. (`reset` and `mark_saved` keep it, by their
/// contracts.)
pub proof fn lemma_session_seq_monotone(
    m0: TrackerModel,
    packets: Seq<Seq<u8>>,
    times: Seq<u64>,
    states: Seq<TrackerModel>,
    outs: Seq<FeedOutcome>,
)
    requires
        feed_chain(m0, packets, times, states, outs),
        m0.session_seq + packets.len() <= u64::MAX,
    ensures
        forall|i: int, j: int|
            0 <= i <= j <= packets.len() ==> #[trigger] states[i].session_seq <= #[trigger] states[
                j
            ].session_seq <= states[i].session_seq + (j - i),
    decreases packets.len(),
{
    if packets.len() > 0 {
        let k = packets.len() - 1;
        let p2 = packets.drop_last();
        let t2 = times.drop_last();
        let s2 = states.drop_last();
        let o2 = outs.drop_last();
        assert forall|i: int| 0 <= i < p2.len() implies #[trigger] feed_step(
            s2[i],
            p2[i],
            t2[i],
            s2[i + 1],
            o2[i],
        ) by {
            assert(feed_step(states[i], packets[i], times[i], states[i + 1], outs[i]));
        }
        lemma_session_seq_monotone(m0, p2, t2, s2, o2);
        assert(feed_step(states[k], packets[k], times[k], states[k + 1], outs[k]));
        assert(states[k].session_seq <= m0.session_seq + k) by {
            assert(s2[0] == m0);
            assert(s2[k].session_seq <= s2[0].session_seq + k);
        }
        lemma_feed_step_seq(states[k], packets[k], times[k], states[k + 1], outs[k]);
        assert forall|i: int, j: int|
            0 <= i <= j <= packets.len() implies #[trigger] states[i].session_seq
            <= #[trigger] states[j].session_seq <= states[i].session_seq + (j - i) by {
            if j <= k {
                assert(s2[i] == states[i] && s2[j] == states[j]);
            } else if i <= k {
                assert(s2[i] == states[i] && s2[k] == states[k]);
                assert(s2[i].session_seq <= s2[k].session_seq <= s2[i].session_seq + (k - i));
            }
        }
    }
}

// ─── Feeding a sequence of packets ─────────────────────────────────────────

/// `states[0] = m0`, and each packet `packets[i]`, read at clock reading
/// `times[i]`, takes `states[i]` to `states[i + 1]` with outcome `outs[i]`.
pub open spec fn feed_chain(
    m0: TrackerModel,
    packets: Seq<Seq<u8>>,
    times: Seq<u64>,
    states: Seq<TrackerModel>,
    outs: Seq<FeedOutcome>,
) -> bool {
    &&& times.len() == packets.len()
    &&& outs.len() == packets.len()
    &&& states.len() == packets.len() + 1
    &&& states[0] == m0
    &&& forall|i: int|
        0 <= i < packets.len() ==> #[trigger] feed_step(
            states[i],
            packets[i],
            times[i],
            states[i + 1],
            outs[i],
        )
}

pub open spec fn is_completed(o: FeedOutcome) -> bool {
    o matches FeedOutcome::Completed { .. }
}

pub open spec fn completed_outcome(t: CompletedTransfer) -> FeedOutcome {
    FeedOutcome::Completed { filename: t.filename@, body: t.body@, is_text: t.is_text }
}

/// Whether the tracker is in a run of repeats: the last outcome other than
/// `Ignored` is a `Duplicate`.
pub open spec fn in_repeat(outs: Seq<FeedOutcome>) -> bool
    decreases outs.len(),
{
    if outs.len() == 0 {
        false
    } else if outs.last() is Ignored {
        in_repeat(outs.drop_last())
    } else {
        outs.last() is Duplicate
    }
}

/// How many times the looping stream came round again as a transfer that
/// was already complete: the runs of `Duplicate` outcomes (bytes that are
/// ignored in between do not end a run).
pub open spec fn count_repeats(outs: Seq<FeedOutcome>) -> int
    decreases outs.len(),
{
    if outs.len() == 0 {
        0
    } else {
        count_repeats(outs.drop_last()) + if outs.last() is Duplicate && !in_repeat(
            outs.drop_last(),
        ) {
            1int
        } else {
            0int
        }
    }
}

/// Pure decode helper: feeds the packets in order to a new tracker and
/// returns the first completed transfer. The clock readings are whatever the
/// monotonic clock gave.
pub fn decode_packets(packets: &[Vec<u8>]) -> (r: Option<CompletedTransfer>)
    ensures
        exists|n: int, times: Seq<u64>, states: Seq<TrackerModel>, outs: Seq<FeedOutcome>|
            #![trigger feed_chain(initial_tracker(), byte_views(packets@).take(n), times, states, outs)]
            {
                &&& 0 <= n <= packets@.len()
                &&& feed_chain(
                    initial_tracker(),
                    byte_views(packets@).take(n),
                    times,
                    states,
                    outs,
                )
                &&& match r {
                    Some(t) => n >= 1 && outs[n - 1] == completed_outcome(t) && forall|j: int|
                        0 <= j < n - 1 ==> !is_completed(#[trigger] outs[j]),
                    None => n == packets@.len() && forall|j: int|
                        0 <= j < n ==> !is_completed(#[trigger] outs[j]),
                }
            },
{
    let mut tracker = TransferTracker::new();
    let ghost views = byte_views(packets@);
    let ghost mut times: Seq<u64> = Seq::empty();
    let ghost mut states: Seq<TrackerModel> = seq![tracker@];
    let ghost mut outs: Seq<FeedOutcome> = Seq::empty();
    let mut i: usize = 0;
    while i < packets.len()
        invariant
            views == byte_views(packets@),
            i <= packets@.len(),
            tracker.wf(),
            tracker@.session_seq <= i,
            feed_chain(initial_tracker(), views.take(i as int), times, states, outs),
            states.last() == tracker@,
            forall|j: int| 0 <= j < i ==> !is_completed(#[trigger] outs[j]),
        decreases packets@.len() - i,
    {
        let ghost before = tracker@;
        let res = tracker.feed(packets[i].as_slice());
        proof {
            let now = choose|now: u64| feed_step(before, packets@[i as int]@, now, tracker@, res.outcome());
            lemma_feed_step_seq(before, packets@[i as int]@, now, tracker@, res.outcome());
            times = times.push(now);
            states = states.push(tracker@);
            outs = outs.push(res.outcome());
            assert(views.take(i + 1) =~= views.take(i as int).push(packets@[i as int]@));
            assert forall|j: int| 0 <= j < i + 1 implies #[trigger] feed_step(
                states[j],
                views.take(i + 1)[j],
                times[j],
                states[j + 1],
                outs[j],
            ) by {
                if j < i {
                    assert(views.take(i + 1)[j] == views.take(i as int)[j]);
                }
            }
        }
        match res {
            FeedResult::Completed(t) => {
                proof {
                    assert(feed_chain(initial_tracker(), views.take(i + 1), times, states, outs));
                }
                return Some(t);
            },
            _ => {},
        }
        i = i + 1;
    }
    proof {
        assert(views.take(i as int) =~= views);
        assert(feed_chain(initial_tracker(), views.take(i as int), times, states, outs));
    }
    None
}

/// Like [`decode_packets`], but feeds every packet and reports the first
/// completed transfer with how many times the (looping) stream came round
/// again as a transfer already complete (see [`count_repeats`]).
pub fn decode_packets_counting_repeats(packets: &[Vec<u8>]) -> (r: (
    Option<CompletedTransfer>,
    usize,
))
    ensures
        exists|times: Seq<u64>, states: Seq<TrackerModel>, outs: Seq<FeedOutcome>|
            #![trigger feed_chain(initial_tracker(), byte_views(packets@), times, states, outs)]
            {
                &&& feed_chain(initial_tracker(), byte_views(packets@), times, states, outs)
                &&& r.1 == count_repeats(outs)
                &&& match r.0 {
                    Some(t) => exists|k: int|
                        0 <= k < outs.len() && outs[k] == completed_outcome(t) && forall|j: int|
                            0 <= j < k ==> !is_completed(#[trigger] outs[j]),
                    None => forall|j: int| 0 <= j < outs.len() ==> !is_completed(#[trigger] outs[j]),
                }
            },
{
    let mut tracker = TransferTracker::new();
    let mut first: Option<CompletedTransfer> = None;
    let mut repeats: usize = 0;
    let mut in_dup = false;
    let ghost views = byte_views(packets@);
    let ghost mut times: Seq<u64> = Seq::empty();
    let ghost mut states: Seq<TrackerModel> = seq![tracker@];
    let ghost mut outs: Seq<FeedOutcome> = Seq::empty();
    let ghost mut first_at: int = 0;
    let mut i: usize = 0;
    while i < packets.len()
        invariant
            views == byte_views(packets@),
            i <= packets@.len(),
            tracker.wf(),
            tracker@.session_seq <= i,
            repeats <= i,
            feed_chain(initial_tracker(), views.take(i as int), times, states, outs),
            states.last() == tracker@,
            repeats == count_repeats(outs),
            in_dup == in_repeat(outs),
            match first {
                Some(t) => 0 <= first_at < i && outs[first_at] == completed_outcome(t) && forall|
                    j: int,
                | 0 <= j < first_at ==> !is_completed(#[trigger] outs[j]),
                None => forall|j: int| 0 <= j < i ==> !is_completed(#[trigger] outs[j]),
            },
        decreases packets@.len() - i,
    {
        let ghost before = tracker@;
        let res = tracker.feed(packets[i].as_slice());
        proof {
            let now = choose|now: u64| feed_step(before, packets@[i as int]@, now, tracker@, res.outcome());
            lemma_feed_step_seq(before, packets@[i as int]@, now, tracker@, res.outcome());
            times = times.push(now);
            states = states.push(tracker@);
            let ghost prev_outs = outs;
            outs = outs.push(res.outcome());
            assert(outs.drop_last() =~= prev_outs);
            assert(views.take(i + 1) =~= views.take(i as int).push(packets@[i as int]@));
            assert forall|j: int| 0 <= j < i + 1 implies #[trigger] feed_step(
                states[j],
                views.take(i + 1)[j],
                times[j],
                states[j + 1],
                outs[j],
            ) by {
                if j < i {
                    assert(views.take(i + 1)[j] == views.take(i as int)[j]);
                }
            }
        }
        match res {
            FeedResult::Completed(t) => {
                in_dup = false;
                if first.is_none() {
                    proof {
                        first_at = i as int;
                    }
                    first = Some(t);
                }
            },
            FeedResult::Duplicate => {
                if !in_dup {
                    repeats = repeats + 1;
                }
                in_dup = true;
            },
            FeedResult::Ignored => {},
            FeedResult::Progress => {
                in_dup = false;
            },
        }
        i = i + 1;
    }
    proof {
        assert(views.take(i as int) =~= views);
        assert(feed_chain(initial_tracker(), views, times, states, outs));
    }
    (first, repeats)
}

// ─── Laws of the tracker ────────────────────────────────────────────────────

/// Bytes that are not an accepted RaptorQ transport packet are ignored and
/// change nothing.
pub proof fn lemma_ignored_changes_nothing(
    m: TrackerModel,
    raw: Seq<u8>,
    now: u64,
    n: TrackerModel,
    r: FeedOutcome,
)
    requires
        feed_step(m, raw, now, n, r),
    ensures
        (r is Ignored) <==> accepted_packet(raw) is None,
        r is Ignored ==> n == m,
{
}

/// The sender loops its stream: once a transfer has completed at clock
/// reading `t0`, a packet of the same transfer (same key) fed less than
/// 5 s later is a duplicate, decodes nothing, and keeps the stream marked
/// as looping from its own reading on.
pub proof fn lemma_completed_stream_is_duplicate(
    m0: TrackerModel,
    raw0: Seq<u8>,
    t0: u64,
    m1: TrackerModel,
    r0: FeedOutcome,
    raw1: Seq<u8>,
    t1: u64,
    m2: TrackerModel,
    r1: FeedOutcome,
)
    requires
        feed_step(m0, raw0, t0, m1, r0),
        r0 is Completed,
        feed_step(m1, raw1, t1, m2, r1),
        accepted_packet(raw1) is Some,
        raw_key(raw1) == raw_key(raw0),
        elapsed(t1, t0) < STREAM_IDLE_RESET_NANOS,
    ensures
        r1 is Duplicate,
        m2.session == m1.session,
        m2.last_completed == m1.last_completed,
        m2.completed matches Some(c) && c.last_seen == t1,
{
}

/// A transfer is reported as completed only when its (key, content)
/// differs from the last completed one, and it then becomes the last
/// completed one: the same file is never reported twice in a row.
pub proof fn lemma_completion_is_new_content(
    m: TrackerModel,
    raw: Seq<u8>,
    now: u64,
    n: TrackerModel,
    r: FeedOutcome,
)
    requires
        feed_step(m, raw, now, n, r),
        r is Completed,
    ensures
        ({
            let key = raw_key(raw);
            &&& m.last_completed != Some((key, r->body))
            &&& n.last_completed == Some((key, r->body))
            &&& n.session is None
        }),
{
}

/// A completion with the same key and content as the last completed
/// transfer is reported as a duplicate.
pub proof fn lemma_repeated_content_is_duplicate(
    m: TrackerModel,
    raw: Seq<u8>,
    now: u64,
    n: TrackerModel,
    r: FeedOutcome,
)
    requires
        feed_step(m, raw, now, n, r),
        m.last_completed is Some,
        n.last_completed == m.last_completed,
        n.session is None,
        accepted_packet(raw) is Some,
        !still_looping(m, raw_key(raw), now),
    ensures
        r is Duplicate,
{
}

/// Drops the last feed of a run.
proof fn lemma_feed_chain_drop_last(
    m0: TrackerModel,
    packets: Seq<Seq<u8>>,
    times: Seq<u64>,
    states: Seq<TrackerModel>,
    outs: Seq<FeedOutcome>,
)
    requires
        feed_chain(m0, packets, times, states, outs),
        packets.len() > 0,
    ensures
        feed_chain(
            m0,
            packets.drop_last(),
            times.drop_last(),
            states.drop_last(),
            outs.drop_last(),
        ),
{
    let p2 = packets.drop_last();
    let t2 = times.drop_last();
    let s2 = states.drop_last();
    let o2 = outs.drop_last();
    assert forall|i: int| 0 <= i < p2.len() implies #[trigger] feed_step(
        s2[i],
        p2[i],
        t2[i],
        s2[i + 1],
        o2[i],
    ) by {
        assert(feed_step(states[i], packets[i], times[i], states[i + 1], outs[i]));
    }
}

/// While a finished stream keeps looping, it stays a duplicate: from a
/// state whose completed transfer `c` is still marked, a run of packets of
/// that transfer (same key), each read less than 5 s after the one before
/// (the first less than 5 s after `c` was last seen), gives `Duplicate`
/// every time. Nothing is decoded or started: the session, the session id
/// and the last completed transfer stay as they were, and only the time the
/// stream was last seen moves on.
pub proof fn lemma_looping_stream_stays_duplicate(
    m0: TrackerModel,
    packets: Seq<Seq<u8>>,
    times: Seq<u64>,
    states: Seq<TrackerModel>,
    outs: Seq<FeedOutcome>,
)
    requires
        feed_chain(m0, packets, times, states, outs),
        m0.completed is Some,
        forall|i: int|
            0 <= i < packets.len() ==> accepted_packet(#[trigger] packets[i]) is Some && raw_key(
                packets[i],
            ) == m0.completed->0.key,
        packets.len() > 0 ==> elapsed(times[0], m0.completed->0.last_seen)
            < STREAM_IDLE_RESET_NANOS,
        forall|i: int|
            0 < i < packets.len() ==> elapsed(#[trigger] times[i], times[i - 1])
                < STREAM_IDLE_RESET_NANOS,
    ensures
        forall|i: int| 0 <= i < packets.len() ==> #[trigger] outs[i] is Duplicate,
        forall|i: int|
            0 < i <= packets.len() ==> #[trigger] states[i] == (TrackerModel {
                completed: Some(CompletedModel { last_seen: times[i - 1], ..m0.completed->0 }),
                ..m0
            }),
    decreases packets.len(),
{
    if packets.len() > 0 {
        let k = packets.len() - 1;
        lemma_feed_chain_drop_last(m0, packets, times, states, outs);
        let p2 = packets.drop_last();
        let t2 = times.drop_last();
        let s2 = states.drop_last();
        let o2 = outs.drop_last();
        assert forall|i: int| 0 <= i < p2.len() implies accepted_packet(#[trigger] p2[i]) is Some
            && raw_key(p2[i]) == m0.completed->0.key by {
            assert(p2[i] == packets[i]);
        }
        assert forall|i: int| 0 < i < p2.len() implies elapsed(#[trigger] t2[i], t2[i - 1])
            < STREAM_IDLE_RESET_NANOS by {
            assert(t2[i] == times[i]);
        }
        lemma_looping_stream_stays_duplicate(m0, p2, t2, s2, o2);
        assert(feed_step(states[k], packets[k], times[k], states[k + 1], outs[k]));
        if k > 0 {
            assert(s2[k] == states[k]);
            assert(elapsed(times[k], times[k - 1]) < STREAM_IDLE_RESET_NANOS);
        } else {
            assert(states[0] == m0);
        }
        assert forall|i: int| 0 <= i < packets.len() implies #[trigger] outs[i] is Duplicate by {
            if i < k {
                assert(o2[i] == outs[i]);
            }
        }
        assert forall|i: int| 0 < i <= packets.len() implies #[trigger] states[i] == (
        TrackerModel {
            completed: Some(CompletedModel { last_seen: times[i - 1], ..m0.completed->0 }),
            ..m0
        }) by {
            if i <= k {
                assert(s2[i] == states[i]);
                assert(t2[i - 1] == times[i - 1]);
            }
        }
    }
}

/// Only a completion changes the last completed transfer.
proof fn lemma_last_completed_kept(
    m0: TrackerModel,
    packets: Seq<Seq<u8>>,
    times: Seq<u64>,
    states: Seq<TrackerModel>,
    outs: Seq<FeedOutcome>,
    a: int,
    b: int,
)
    requires
        feed_chain(m0, packets, times, states, outs),
        0 <= a <= b <= packets.len(),
        forall|k: int| a <= k < b ==> !is_completed(#[trigger] outs[k]),
    ensures
        states[b].last_completed == states[a].last_completed,
    decreases b - a,
{
    if a < b {
        let c = b - 1;
        lemma_last_completed_kept(m0, packets, times, states, outs, a, c);
        assert(feed_step(states[c], packets[c], times[c], states[c + 1], outs[c]));
        assert(!is_completed(outs[c]));
    }
}

/// The same transfer is never reported `Completed` twice in a row: in any
/// run of feeds, two `Completed` outcomes with no other `Completed` between
/// them differ in their key or their content. So a looping stream, even one
/// that pauses or is reset, is saved once.
pub proof fn lemma_completed_once_in_a_row(
    m0: TrackerModel,
    packets: Seq<Seq<u8>>,
    times: Seq<u64>,
    states: Seq<TrackerModel>,
    outs: Seq<FeedOutcome>,
    i: int,
    j: int,
)
    requires
        feed_chain(m0, packets, times, states, outs),
        0 <= i < j < packets.len(),
        outs[i] is Completed,
        outs[j] is Completed,
        forall|k: int| i < k < j ==> !is_completed(#[trigger] outs[k]),
    ensures
        (raw_key(packets[i]), outs[i]->body) != (raw_key(packets[j]), outs[j]->body),
{
    assert(feed_step(states[i], packets[i], times[i], states[i + 1], outs[i]));
    assert(feed_step(states[j], packets[j], times[j], states[j + 1], outs[j]));
    lemma_completion_is_new_content(states[i], packets[i], times[i], states[i + 1], outs[i]);
    lemma_completion_is_new_content(states[j], packets[j], times[j], states[j + 1], outs[j]);
    lemma_last_completed_kept(m0, packets, times, states, outs, i + 1, j);
}

/// Until the first completion the clock plays no part: two runs of a new
/// tracker over the same packets, read at any clock readings, pass through
/// the same states and give the same outcomes up to and including the first
/// `Completed` one. Hence [`decode_packets`] and the first transfer of
/// [`decode_packets_counting_repeats`] agree.
pub proof fn lemma_first_completion_ignores_clock(
    packets: Seq<Seq<u8>>,
    t1: Seq<u64>,
    s1: Seq<TrackerModel>,
    o1: Seq<FeedOutcome>,
    t2: Seq<u64>,
    s2: Seq<TrackerModel>,
    o2: Seq<FeedOutcome>,
)
    requires
        feed_chain(initial_tracker(), packets, t1, s1, o1),
        feed_chain(initial_tracker(), packets, t2, s2, o2),
    ensures
        forall|i: int|
            0 <= i < packets.len() && (forall|j: int| 0 <= j < i ==> !is_completed(
                #[trigger] o1[j],
            )) ==> #[trigger] o1[i] == o2[i],
{
    lemma_same_until_completion(packets, t1, s1, o1, t2, s2, o2, packets.len() as int);
}

proof fn lemma_same_until_completion(
    packets: Seq<Seq<u8>>,
    t1: Seq<u64>,
    s1: Seq<TrackerModel>,
    o1: Seq<FeedOutcome>,
    t2: Seq<u64>,
    s2: Seq<TrackerModel>,
    o2: Seq<FeedOutcome>,
    n: int,
)
    requires
        feed_chain(initial_tracker(), packets, t1, s1, o1),
        feed_chain(initial_tracker(), packets, t2, s2, o2),
        0 <= n <= packets.len(),
    ensures
        (forall|j: int| 0 <= j < n ==> !is_completed(#[trigger] o1[j])) ==> {
            &&& s1[n] == s2[n]
            &&& s1[n].completed is None
            &&& s1[n].last_completed is None
        },
        forall|i: int|
            0 <= i < n && (forall|j: int| 0 <= j < i ==> !is_completed(#[trigger] o1[j]))
                ==> #[trigger] o1[i] == o2[i],
    decreases n,
{
    if n > 0 {
        let k = n - 1;
        lemma_same_until_completion(packets, t1, s1, o1, t2, s2, o2, k);
        if forall|j: int| 0 <= j < k ==> !is_completed(#[trigger] o1[j]) {
            assert(feed_step(s1[k], packets[k], t1[k], s1[k + 1], o1[k]));
            assert(feed_step(s2[k], packets[k], t2[k], s2[k + 1], o2[k]));
            assert(o1[k] == o2[k]);
        }
    }
}

/// Outcomes without a `Duplicate` count no repeat.
proof fn lemma_no_repeat_without_duplicates(outs: Seq<FeedOutcome>)
    requires
        forall|j: int| 0 <= j < outs.len() ==> !(#[trigger] outs[j] is Duplicate),
    ensures
        count_repeats(outs) == 0,
        !in_repeat(outs),
    decreases outs.len(),
{
    if outs.len() > 0 {
        let d = outs.drop_last();
        assert forall|j: int| 0 <= j < d.len() implies !(#[trigger] d[j] is Duplicate) by {
            assert(d[j] == outs[j]);
        }
        lemma_no_repeat_without_duplicates(d);
    }
}

/// A completion followed only by duplicates counts one repeat.
proof fn lemma_one_repeat_after_completion(outs: Seq<FeedOutcome>, c: int)
    requires
        0 <= c < outs.len(),
        outs[c] is Completed,
        forall|j: int| 0 <= j < c ==> !(#[trigger] outs[j] is Duplicate),
        forall|j: int| c < j < outs.len() ==> #[trigger] outs[j] is Duplicate,
    ensures
        count_repeats(outs) == if outs.len() > c + 1 {
            1int
        } else {
            0int
        },
        in_repeat(outs) == (outs.len() > c + 1),
    decreases outs.len(),
{
    let d = outs.drop_last();
    if outs.len() == c + 1 {
        assert forall|j: int| 0 <= j < d.len() implies !(#[trigger] d[j] is Duplicate) by {
            assert(d[j] == outs[j]);
        }
        lemma_no_repeat_without_duplicates(d);
    } else {
        assert(d[c] == outs[c]);
        assert forall|j: int| 0 <= j < c implies !(#[trigger] d[j] is Duplicate) by {
            assert(d[j] == outs[j]);
        }
        assert forall|j: int| c < j < d.len() implies #[trigger] d[j] is Duplicate by {
            assert(d[j] == outs[j]);
        }
        lemma_one_repeat_after_completion(d, c);
    }
}

/// The feeds of a run from position `a` on form a run of their own.
proof fn lemma_feed_chain_skip(
    m0: TrackerModel,
    packets: Seq<Seq<u8>>,
    times: Seq<u64>,
    states: Seq<TrackerModel>,
    outs: Seq<FeedOutcome>,
    a: int,
)
    requires
        feed_chain(m0, packets, times, states, outs),
        0 <= a <= packets.len(),
    ensures
        feed_chain(states[a], packets.skip(a), times.skip(a), states.skip(a), outs.skip(a)),
{
    assert forall|i: int| 0 <= i < packets.skip(a).len() implies #[trigger] feed_step(
        states.skip(a)[i],
        packets.skip(a)[i],
        times.skip(a)[i],
        states.skip(a)[i + 1],
        outs.skip(a)[i],
    ) by {
        let k = a + i;
        assert(feed_step(states[k], packets[k], times[k], states[k + 1], outs[k]));
        assert(states.skip(a)[i + 1] == states[k + 1]);
    }
}

/// A looping stream after its completion counts one repeat: a new tracker
/// fed a run whose first completion is at `c`, and whose later packets are
/// all packets of the same transfer, each read less than 5 s after the one
/// before, reports one repeat, however many more passes follow. This is the
/// case of a stream fed twice within 5 s to
/// [`decode_packets_counting_repeats`].
pub proof fn lemma_looping_stream_counts_one_repeat(
    packets: Seq<Seq<u8>>,
    times: Seq<u64>,
    states: Seq<TrackerModel>,
    outs: Seq<FeedOutcome>,
    c: int,
)
    requires
        feed_chain(initial_tracker(), packets, times, states, outs),
        0 <= c < packets.len() - 1,
        outs[c] is Completed,
        forall|j: int| 0 <= j < c ==> !is_completed(#[trigger] outs[j]),
        forall|i: int|
            c < i < packets.len() ==> accepted_packet(#[trigger] packets[i]) is Some && raw_key(
                packets[i],
            ) == raw_key(packets[c]),
        forall|i: int|
            c < i < packets.len() ==> elapsed(#[trigger] times[i], times[i - 1])
                < STREAM_IDLE_RESET_NANOS,
    ensures
        count_repeats(outs) == 1,
{
    lemma_same_until_completion(packets, times, states, outs, times, states, outs, c);
    assert forall|j: int| 0 <= j < c implies !(#[trigger] outs[j] is Duplicate) by {
        lemma_same_until_completion(packets, times, states, outs, times, states, outs, j);
        assert(forall|l: int| 0 <= l < j ==> !is_completed(#[trigger] outs[l]));
        assert(feed_step(states[j], packets[j], times[j], states[j + 1], outs[j]));
        assert(!is_completed(outs[j]));
    }
    assert(feed_step(states[c], packets[c], times[c], states[c + 1], outs[c]));
    let m1 = states[c + 1];
    assert(m1.completed is Some && m1.completed->0.key == raw_key(packets[c])
        && m1.completed->0.last_seen == times[c]);
    lemma_feed_chain_skip(initial_tracker(), packets, times, states, outs, c + 1);
    let p2 = packets.skip(c + 1);
    let t2 = times.skip(c + 1);
    let s2 = states.skip(c + 1);
    let o2 = outs.skip(c + 1);
    assert forall|i: int| 0 <= i < p2.len() implies accepted_packet(#[trigger] p2[i]) is Some
        && raw_key(p2[i]) == m1.completed->0.key by {
        assert(p2[i] == packets[c + 1 + i]);
    }
    assert(elapsed(t2[0], m1.completed->0.last_seen) < STREAM_IDLE_RESET_NANOS) by {
        assert(t2[0] == times[c + 1]);
    }
    assert forall|i: int| 0 < i < p2.len() implies elapsed(#[trigger] t2[i], t2[i - 1])
        < STREAM_IDLE_RESET_NANOS by {
        assert(t2[i] == times[c + 1 + i]);
        assert(t2[i - 1] == times[c + 1 + i - 1]);
    }
    lemma_looping_stream_stays_duplicate(m1, p2, t2, s2, o2);
    assert forall|j: int| c < j < outs.len() implies #[trigger] outs[j] is Duplicate by {
        assert(o2[j - c - 1] == outs[j]);
    }
    lemma_one_repeat_after_completion(outs, c);
}

/// Only the finished transfer itself is looping: after a completion, a
/// packet of another transfer (another session key) is never taken for the
/// looping stream. It is decoded in a session of its own key, and if it is
/// reported a duplicate, that is because it completed its own transfer with
/// content already received under its own key.
pub proof fn lemma_other_transfer_is_not_looping(
    m: TrackerModel,
    raw: Seq<u8>,
    now: u64,
    n: TrackerModel,
    r: FeedOutcome,
)
    requires
        feed_step(m, raw, now, n, r),
        accepted_packet(raw) is Some,
        m.completed matches Some(c) && c.key != raw_key(raw),
    ensures
        r is Progress ==> (n.session matches Some((k, s)) && k == raw_key(raw)),
        r is Duplicate ==> (n.last_completed matches Some((k, b)) && k == raw_key(raw)),
        r is Duplicate || r is Completed ==> n.session is None && (n.completed matches Some(c)
            && c.key == raw_key(raw)),
        !(r is Ignored),
{
}

} // verus!
