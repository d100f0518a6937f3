//! The receive loop's decisions, as a step function from state and event to
//! the next state and the actions to perform. The loop itself (capturing
//! frames, decoding QR codes, feeding the tracker, saving, printing) runs in
//! the application, which hands every event to [`receiver_step`] and does
//! what the returned actions say.
//!
//! It serves both receivers: the headless one (status line every 0.5 s,
//! optional stop after the first file) and the windowed receiver's capture
//! worker (status every 0.25 s, preview frames of one display, a transfer
//! report for the window after every completion).
use vstd::prelude::*;

verus! {

/// Minimum gap between two decodes of one display, in milliseconds.
pub const DECODE_INTERVAL_MS: u64 = 100;

/// Gap between status lines of the headless receiver, in milliseconds.
pub const STATUS_INTERVAL_MS: u64 = 500;

/// Gap between status reports of the windowed receiver's worker.
pub const WORKER_STATUS_INTERVAL_MS: u64 = 250;

/// Gap between preview frames of the windowed receiver's worker.
pub const PREVIEW_INTERVAL_MS: u64 = 350;

/// Which receiver runs the loop.
#[derive(Debug, Clone, Copy, PartialEq, Eq, Structural)]
pub enum ReceiverMode {
    /// The console receiver.
    Headless,
    /// The windowed receiver's capture worker.
    Worker,
}

/// What happened in the loop. Times are milliseconds of a monotonic clock.
#[derive(Debug, Clone, Copy, PartialEq, Eq, Structural)]
pub enum ReceiverEvent {
    /// A frame of display `display` was captured at `now`; `decodable`
    /// tells whether the part of it to decode is not empty.
    Frame { display: usize, now: u64, decodable: bool },
    /// Feeding a decoded QR symbol completed a transfer.
    Completed,
    /// The completed transfer was saved; `written` tells whether a new file
    /// was written (it is not when the same content was already there).
    Saved { written: bool },
    /// The loop went round once, at `now`.
    Tick { now: u64 },
    /// The window now previews display `display`.
    SelectPreview { display: usize },
    /// The window asks for a preview frame without waiting.
    PreviewRequested,
}

/// What the loop is to do.
#[derive(Debug, Clone, Copy, PartialEq, Eq, Structural)]
pub enum ReceiverAction {
    /// Send a downscaled preview of this display's frame to the window.
    Preview(usize),
    /// Decode the QR codes of this display's frame.
    Decode(usize),
    /// Save the completed transfer.
    Save,
    /// Show the "file received" notification.
    Notify,
    /// Report the completed transfer to the window.
    Transfer,
    /// Print (or send) the status line.
    Status,
    /// Stop receiving.
    Stop,
}

/// The state of the loop, as the contracts see it.
pub struct ReceiverModel {
    pub mode: ReceiverMode,
    pub once: bool,
    pub preview_display: usize,
    pub preview_wanted: bool,
    /// Time of the last decode, per display that was decoded.
    pub last_decode: Map<usize, u64>,
    pub last_status: u64,
    pub last_preview: Option<u64>,
    pub stopped: bool,
}

/// The state of the receive loop.
pub struct ReceiverState {
    mode: ReceiverMode,
    once: bool,
    preview_display: usize,
    preview_wanted: bool,
    /// Indexed by display: the time of its last decode, if any.
    last_decode: Vec<Option<u64>>,
    last_status: u64,
    last_preview: Option<u64>,
    stopped: bool,
}

/// The decode times held in a vector indexed by display.
pub open spec fn decode_times(v: Seq<Option<u64>>) -> Map<usize, u64> {
    Map::new(|d: usize| d < v.len() && v[d as int] is Some, |d: usize| v[d as int]->0)
}

impl View for ReceiverState {
    type V = ReceiverModel;

    closed spec fn view(&self) -> ReceiverModel {
        ReceiverModel {
            mode: self.mode,
            once: self.once,
            preview_display: self.preview_display,
            preview_wanted: self.preview_wanted,
            last_decode: decode_times(self.last_decode@),
            last_status: self.last_status,
            last_preview: self.last_preview,
            stopped: self.stopped,
        }
    }
}

/// Whether `gap` milliseconds have passed since `last` (at once when there
/// was no last time).
pub open spec fn due(last: Option<u64>, now: u64, gap: u64) -> bool {
    match last {
        Some(t) => now >= t + gap,
        None => true,
    }
}

pub open spec fn status_interval(mode: ReceiverMode) -> u64 {
    match mode {
        ReceiverMode::Headless => STATUS_INTERVAL_MS,
        ReceiverMode::Worker => WORKER_STATUS_INTERVAL_MS,
    }
}

/// A new loop started at `now`, previewing display 0.
pub open spec fn initial_receiver(mode: ReceiverMode, once: bool, now: u64) -> ReceiverModel {
    ReceiverModel {
        mode,
        once,
        preview_display: 0,
        preview_wanted: false,
        last_decode: Map::empty(),
        last_status: now,
        last_preview: None,
        stopped: false,
    }
}

/// One step of the loop.
///
/// - A frame is decoded only when it has something to decode and 100 ms
///   have passed since that display's own last decode (a display never
///   decoded before at once). The worker also previews the preview
///   display's frame every 350 ms, or at once when asked.
/// - Every completed transfer is saved; the notification goes out only when
///   the save wrote a new file; the worker reports every saved transfer to
///   the window; with `--once` the receiver stops after the first one.
/// - The status goes out every 500 ms (every 250 ms from the worker).
/// - Once stopped, nothing more happens.
pub open spec fn next_receiver(m: ReceiverModel, e: ReceiverEvent) -> (
    ReceiverModel,
    Seq<ReceiverAction>,
) {
    if m.stopped {
        (m, seq![])
    } else {
        match e {
            ReceiverEvent::Frame { display, now, decodable } => {
                let preview = m.mode == ReceiverMode::Worker && display == m.preview_display && (
                m.preview_wanted || due(m.last_preview, now, PREVIEW_INTERVAL_MS));
                let last = if m.last_decode.contains_key(display) {
                    Some(m.last_decode[display])
                } else {
                    None
                };
                let decode = decodable && due(last, now, DECODE_INTERVAL_MS);
                let m1 = if preview {
                    ReceiverModel { last_preview: Some(now), preview_wanted: false, ..m }
                } else {
                    m
                };
                let m2 = if decode {
                    ReceiverModel { last_decode: m1.last_decode.insert(display, now), ..m1 }
                } else {
                    m1
                };
                (
                    m2,
                    (if preview {
                        seq![ReceiverAction::Preview(display)]
                    } else {
                        seq![]
                    }) + (if decode {
                        seq![ReceiverAction::Decode(display)]
                    } else {
                        seq![]
                    }),
                )
            },
            ReceiverEvent::Completed => (m, seq![ReceiverAction::Save]),
            ReceiverEvent::Saved { written } => (
                ReceiverModel { stopped: m.once, ..m },
                (if written {
                    seq![ReceiverAction::Notify]
                } else {
                    seq![]
                }) + (if m.mode == ReceiverMode::Worker {
                    seq![ReceiverAction::Transfer]
                } else {
                    seq![]
                }) + (if m.once {
                    seq![ReceiverAction::Stop]
                } else {
                    seq![]
                }),
            ),
            ReceiverEvent::Tick { now } => if due(
                Some(m.last_status),
                now,
                status_interval(m.mode),
            ) {
                (ReceiverModel { last_status: now, ..m }, seq![ReceiverAction::Status])
            } else {
                (m, seq![])
            },
            ReceiverEvent::SelectPreview { display } => (
                ReceiverModel { preview_display: display, ..m },
                seq![],
            ),
            ReceiverEvent::PreviewRequested => (ReceiverModel { preview_wanted: true, ..m }, seq![]),
        }
    }
}

/// The step relation: `s2` and `acts` are what the loop does after `e` in
/// state `s`.
pub open spec fn receiver_step_spec(
    s: ReceiverModel,
    e: ReceiverEvent,
    s2: ReceiverModel,
    acts: Seq<ReceiverAction>,
) -> bool {
    (s2, acts) == next_receiver(s, e)
}

fn is_due(last: Option<u64>, now: u64, gap: u64) -> (r: bool)
    ensures
        r == due(last, now, gap),
{
    match last {
        Some(t) => now >= t && now - t >= gap,
        None => true,
    }
}

fn copy_times(v: &Vec<Option<u64>>) -> (r: Vec<Option<u64>>)
    ensures
        r@ == v@,
{
    let mut out: Vec<Option<u64>> = Vec::with_capacity(v.len());
    let mut i: usize = 0;
    while i < v.len()
        invariant
            i <= v@.len(),
            out@ == v@.take(i as int),
        decreases v@.len() - i,
    {
        out.push(v[i]);
        assert(out@ =~= v@.take(i + 1));
        i = i + 1;
    }
    assert(out@ =~= v@);
    out
}

/// Records a decode of `display` at `now`.
fn set_time(v: &mut Vec<Option<u64>>, display: usize, now: u64)
    ensures
        decode_times(final(v)@) == decode_times(old(v)@).insert(display, now),
{
    let ghost before = v@;
    while v.len() <= display
        invariant
            v@.len() >= before.len(),
            v@.take(before.len() as int) == before,
            forall|i: int| before.len() <= i < v@.len() ==> v@[i] is None,
        decreases display + 1 - v@.len(),
    {
        let ghost prev = v@;
        v.push(None);
        assert(v@.take(before.len() as int) =~= prev.take(before.len() as int));
    }
    v.set(display, Some(now));
    assert(decode_times(v@) =~= decode_times(before).insert(display, now)) by {
        assert forall|d: usize| #[trigger] decode_times(v@).contains_key(d) <==> decode_times(
            before,
        ).insert(display, now).contains_key(d) by {
            if d < before.len() && d != display {
                assert(v@[d as int] == v@.take(before.len() as int)[d as int]);
            }
        }
        assert forall|d: usize| #[trigger] decode_times(v@).contains_key(d) implies decode_times(
            v@,
        )[d] == decode_times(before).insert(display, now)[d] by {
            if d != display {
                assert(v@[d as int] == v@.take(before.len() as int)[d as int]);
            }
        }
    }
}

impl ReceiverState {
    /// A new loop started at clock reading `now` (milliseconds).
    pub fn new(mode: ReceiverMode, once: bool, now: u64) -> (s: Self)
        ensures
            s@ == initial_receiver(mode, once, now),
    {
        let s = ReceiverState {
            mode,
            once,
            preview_display: 0,
            preview_wanted: false,
            last_decode: Vec::new(),
            last_status: now,
            last_preview: None,
            stopped: false,
        };
        assert(decode_times(s.last_decode@) =~= Map::<usize, u64>::empty());
        s
    }

    /// Whether the loop has stopped.
    pub fn is_stopped(&self) -> (r: bool)
        ensures
            r == self@.stopped,
    {
        self.stopped
    }

    fn copy(&self) -> (r: Self)
        ensures
            r@ == self@,
    {
        ReceiverState {
            mode: self.mode,
            once: self.once,
            preview_display: self.preview_display,
            preview_wanted: self.preview_wanted,
            last_decode: copy_times(&self.last_decode),
            last_status: self.last_status,
            last_preview: self.last_preview,
            stopped: self.stopped,
        }
    }
}

/// One step of the receive loop: the next state and the actions to perform.
pub fn receiver_step(state: &ReceiverState, event: ReceiverEvent) -> (r: (
    ReceiverState,
    Vec<ReceiverAction>,
))
    ensures
        receiver_step_spec(state@, event, r.0@, r.1@),
{
    let mut s = state.copy();
    let mut acts: Vec<ReceiverAction> = Vec::new();
    if s.stopped {
        assert(acts@ =~= Seq::<ReceiverAction>::empty());
        return (s, acts);
    }
    match event {
        ReceiverEvent::Frame { display, now, decodable } => {
            let preview = s.mode == ReceiverMode::Worker && display == s.preview_display && (
            s.preview_wanted || is_due(s.last_preview, now, PREVIEW_INTERVAL_MS));
            let last = if display < s.last_decode.len() {
                s.last_decode[display]
            } else {
                None
            };
            let decode = decodable && is_due(last, now, DECODE_INTERVAL_MS);
            if preview {
                s.last_preview = Some(now);
                s.preview_wanted = false;
                acts.push(ReceiverAction::Preview(display));
            }
            if decode {
                set_time(&mut s.last_decode, display, now);
                acts.push(ReceiverAction::Decode(display));
            }
            proof {
                let m = state@;
                let l = if m.last_decode.contains_key(display) {
                    Some(m.last_decode[display])
                } else {
                    None
                };
                assert(l == last);
                let expected = (if preview {
                    seq![ReceiverAction::Preview(display)]
                } else {
                    seq![]
                }) + (if decode {
                    seq![ReceiverAction::Decode(display)]
                } else {
                    seq![]
                });
                assert(acts@ =~= expected);
            }
        },
        ReceiverEvent::Completed => {
            acts.push(ReceiverAction::Save);
            assert(acts@ =~= seq![ReceiverAction::Save]);
        },
        ReceiverEvent::Saved { written } => {
            if written {
                acts.push(ReceiverAction::Notify);
            }
            if s.mode == ReceiverMode::Worker {
                acts.push(ReceiverAction::Transfer);
            }
            if s.once {
                acts.push(ReceiverAction::Stop);
            }
            s.stopped = s.once;
            proof {
                let expected = (if written {
                    seq![ReceiverAction::Notify]
                } else {
                    seq![]
                }) + (if state@.mode == ReceiverMode::Worker {
                    seq![ReceiverAction::Transfer]
                } else {
                    seq![]
                }) + (if state@.once {
                    seq![ReceiverAction::Stop]
                } else {
                    seq![]
                });
                assert(acts@ =~= expected);
            }
        },
        ReceiverEvent::Tick { now } => {
            let gap = match s.mode {
                ReceiverMode::Headless => STATUS_INTERVAL_MS,
                ReceiverMode::Worker => WORKER_STATUS_INTERVAL_MS,
            };
            if is_due(Some(s.last_status), now, gap) {
                s.last_status = now;
                acts.push(ReceiverAction::Status);
                assert(acts@ =~= seq![ReceiverAction::Status]);
            } else {
                assert(acts@ =~= Seq::<ReceiverAction>::empty());
            }
        },
        ReceiverEvent::SelectPreview { display } => {
            s.preview_display = display;
            assert(acts@ =~= Seq::<ReceiverAction>::empty());
        },
        ReceiverEvent::PreviewRequested => {
            s.preview_wanted = true;
            assert(acts@ =~= Seq::<ReceiverAction>::empty());
        },
    }
    (s, acts)
}

/// A newly written file is always announced: after a save that wrote a
/// file, a receiver that has not stopped gives the notification first,
/// with or without `--once`; with `--once` it then stops, last. A save that
/// wrote nothing is never announced.
pub proof fn lemma_written_file_is_announced(
    s: ReceiverModel,
    written: bool,
    s2: ReceiverModel,
    acts: Seq<ReceiverAction>,
)
    requires
        receiver_step_spec(s, ReceiverEvent::Saved { written }, s2, acts),
        !s.stopped,
    ensures
        written ==> acts.len() > 0 && acts[0] == ReceiverAction::Notify,
        !written ==> !acts.contains(ReceiverAction::Notify),
        s.once ==> acts.len() > 0 && acts.last() == ReceiverAction::Stop && s2.stopped,
        !s.once ==> !acts.contains(ReceiverAction::Stop) && !s2.stopped,
{
    let a = if written {
        seq![ReceiverAction::Notify]
    } else {
        seq![]
    };
    let b = if s.mode == ReceiverMode::Worker {
        seq![ReceiverAction::Transfer]
    } else {
        seq![]
    };
    let c = if s.once {
        seq![ReceiverAction::Stop]
    } else {
        seq![]
    };
    assert(acts == a + b + c);
    if !written {
        assert(!acts.contains(ReceiverAction::Notify)) by {
            if acts.contains(ReceiverAction::Notify) {
                let i = choose|i: int| 0 <= i < acts.len() && acts[i] == ReceiverAction::Notify;
                assert(acts[i] == (b + c)[i]);
            }
        }
    }
    if !s.once {
        assert(!acts.contains(ReceiverAction::Stop)) by {
            if acts.contains(ReceiverAction::Stop) {
                let i = choose|i: int| 0 <= i < acts.len() && acts[i] == ReceiverAction::Stop;
                assert(acts == a + b);
            }
        }
    }
}

} // verus!
