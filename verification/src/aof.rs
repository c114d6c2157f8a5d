//! The append-only log: the encodings of the requests that changed the store,
//! buffered until they are written out, and replayed into a store at start.
use crate::frame::{lemma_frames_view, Error, ErrorView, Frame, FrameView};
use crate::handler::{execute_command, is_write_command, spec_execute, to_string, Keyspace};
use crate::resp::{decode_at, decode_frame, emit, encode_frame, DecodeView, Decoded};
use crate::roundtrip::{lemma_decode_emit, lemma_emit_complete, wire_safe};
use crate::server::spec_response;
use crate::store::Store;
use crate::text::to_uppercase;
use vstd::prelude::*;

verus! {

/// The log after a request has been offered to it.
pub open spec fn log_after(log: Seq<u8>, request: FrameView) -> Seq<u8> {
    if is_write_command(request) {
        log + emit(request).0
    } else {
        log
    }
}

/// Whether a response reports a failure.
pub open spec fn is_error_reply(f: FrameView) -> bool {
    f is Error
}

/// The bytes of the log that have not been written out yet.
pub struct AofBuffer {
    buffer: Vec<u8>,
}

impl View for AofBuffer {
    type V = Seq<u8>;

    closed spec fn view(&self) -> Seq<u8> {
        self.buffer@
    }
}

/// Whether `request` is a command that the log records.
pub fn should_log(request: &Frame) -> (b: bool)
    ensures
        b == is_write_command(request@),
{
    match request {
        Frame::Array(frames) => {
            proof {
                lemma_frames_view(frames@);
            }
            if frames.len() == 0 {
                return false;
            }
            match to_string(&frames[0]) {
                Some(name) => {
                    let cmd = to_uppercase(name.as_str());
                    cmd == "SET".to_owned() || cmd == "HSET".to_owned()
                },
                None => false,
            }
        },
        _ => false,
    }
}

impl AofBuffer {
    /// An empty buffer.
    pub fn new() -> (b: Self)
        ensures
            b@ == Seq::<u8>::empty(),
    {
        AofBuffer { buffer: Vec::new() }
    }

    /// Appends the encoding of `frame`; a hash cannot be encoded, and the
    /// bytes written before it stay.
    pub fn extend_buffer(&mut self, frame: &Frame) -> (r: Result<(), Error>)
        ensures
            final(self)@ == old(self)@ + emit(frame@).0,
            r is Ok <==> emit(frame@).1,
            r matches Err(e) ==> e@ == ErrorView::Other,
    {
        encode_frame(frame, &mut self.buffer)
    }

    /// Records a request if the log keeps requests of its kind.
    pub fn append_to_aof(&mut self, request: &Frame)
        ensures
            final(self)@ == log_after(old(self)@, request@),
    {
        if should_log(request) {
            let _ = self.extend_buffer(request);
        }
    }

    /// Records a request that the server answered with `response`: only
    /// requests that did not fail are recorded.
    pub fn record(&mut self, request: &Frame, response: &Frame)
        ensures
            final(self)@ == if is_error_reply(response@) {
                old(self)@
            } else {
                log_after(old(self)@, request@)
            },
    {
        if let Frame::Error(_) = response {
        } else {
            self.append_to_aof(request);
        }
    }

    /// Whether nothing waits to be written.
    pub fn is_empty(&self) -> (b: bool)
        ensures
            b == (self@.len() == 0),
    {
        self.buffer.len() == 0
    }

    /// Hands over the pending bytes, leaving the buffer empty.
    pub fn take_pending(&mut self) -> (data: Vec<u8>)
        ensures
            data@ == old(self)@,
            final(self)@ == Seq::<u8>::empty(),
    {
        let mut data: Vec<u8> = Vec::new();
        std::mem::swap(&mut data, &mut self.buffer);
        data
    }

    /// Puts back bytes whose write failed, after what has been buffered since.
    pub fn requeue(&mut self, data: Vec<u8>)
        ensures
            final(self)@ == old(self)@ + data@,
    {
        let mut data = data;
        self.buffer.append(&mut data);
    }
}

/// How replaying a log ended.
pub enum Replayed {
    /// Every frame was replayed up to the end of the log.
    Complete,
    /// Decoding the log failed; the frames before the failure were replayed.
    Failed(Error),
    /// The log announces a negative length other than -1, which the stream
    /// reader cannot allocate a buffer for.
    Unallocatable,
}

pub enum ReplayedView {
    Complete,
    Failed(ErrorView),
    Unallocatable,
}

impl View for Replayed {
    type V = ReplayedView;

    open spec fn view(&self) -> ReplayedView {
        match self {
            Replayed::Complete => ReplayedView::Complete,
            Replayed::Failed(e) => ReplayedView::Failed(e@),
            Replayed::Unallocatable => ReplayedView::Unallocatable,
        }
    }
}

/// Replaying the log `s` from position `pos` into the keyspace `m`: how it
/// ends, and the keyspace after it.
pub open spec fn spec_replay(s: Seq<u8>, pos: int, m: Keyspace) -> (ReplayedView, Keyspace)
    decreases s.len() - pos,
{
    match decode_at(s, pos, true) {
        DecodeView::Done(f, p) => if pos < p <= s.len() {
            spec_replay(s, p, spec_execute(f, m).1)
        } else {
            (ReplayedView::Failed(ErrorView::Other), m)
        },
        DecodeView::Fail(ErrorView::ConnectionClosed, _) => (ReplayedView::Complete, m),
        DecodeView::Fail(e, _) => (ReplayedView::Failed(e), m),
        DecodeView::Unallocatable => (ReplayedView::Unallocatable, m),
        DecodeView::Short => (ReplayedView::Failed(ErrorView::Other), m),
    }
}

/// Replays the requests of a log into the store, in order, until the log ends
/// or a frame cannot be decoded. The replies are dropped.
pub fn replay(store: &mut Store, log: &[u8]) -> (r: Replayed)
    ensures
        (r@, final(store)@) == spec_replay(log@, 0, old(store)@),
{
    let mut pos: usize = 0;
    loop
        invariant
            pos <= log@.len(),
            spec_replay(log@, 0, old(store)@) == spec_replay(log@, pos as int, store@),
        decreases log@.len() - pos,
    {
        match decode_frame(log, pos, true) {
            Decoded::Frame(frame, next) => {
                let _ = execute_command(&frame, store);
                pos = next;
            },
            Decoded::Failed(Error::ConnectionClosed, _) => {
                return Replayed::Complete;
            },
            Decoded::Failed(e, _) => {
                return Replayed::Failed(e);
            },
            Decoded::Unallocatable => {
                return Replayed::Unallocatable;
            },
            Decoded::NeedMore => {
                return Replayed::Failed(Error::Other);
            },
        }
    }
}

} // verus!

verus! {

/// Serving requests in turn from the keyspace `m` with the log `log`: the
/// keyspace and the log afterwards. A request is recorded when the log keeps
/// its kind and its reply is not an error.
pub open spec fn serve_all(reqs: Seq<FrameView>, m: Keyspace, log: Seq<u8>) -> (Keyspace, Seq<u8>)
    decreases reqs.len(),
{
    if reqs.len() == 0 {
        (m, log)
    } else {
        let r = reqs[0];
        let next_log = if is_error_reply(spec_response(r, m)) {
            log
        } else {
            log_after(log, r)
        };
        serve_all(reqs.subrange(1, reqs.len() as int), spec_execute(r, m).1, next_log)
    }
}

/// Whether serving a request records it in the log.
pub open spec fn is_recorded(r: FrameView, m: Keyspace) -> bool {
    is_write_command(r) && !is_error_reply(spec_response(r, m))
}

/// Every request that serving `reqs` records reads back as itself.
pub open spec fn recorded_wire_safe(reqs: Seq<FrameView>, m: Keyspace) -> bool
    decreases reqs.len(),
{
    reqs.len() == 0 || ((is_recorded(reqs[0], m) ==> wire_safe(reqs[0])) && recorded_wire_safe(
        reqs.subrange(1, reqs.len() as int),
        spec_execute(reqs[0], m).1,
    ))
}

/// A request that is not recorded leaves the keyspace as it was.
pub proof fn lemma_unrecorded_request_keeps_keyspace(r: FrameView, m: Keyspace)
    requires
        !is_recorded(r, m),
    ensures
        spec_execute(r, m).1 == m,
{
}

proof fn lemma_serve_all_extends(reqs: Seq<FrameView>, m: Keyspace, log: Seq<u8>)
    ensures
        serve_all(reqs, m, log).1.len() >= log.len(),
        serve_all(reqs, m, log).1.subrange(0, log.len() as int) == log,
    decreases reqs.len(),
{
    if reqs.len() == 0 {
        assert(log.subrange(0, log.len() as int) == log);
    } else {
        let r = reqs[0];
        let next_log = if is_error_reply(spec_response(r, m)) {
            log
        } else {
            log_after(log, r)
        };
        lemma_serve_all_extends(reqs.subrange(1, reqs.len() as int), spec_execute(r, m).1, next_log);
        let fin = serve_all(reqs, m, log).1;
        assert(fin.subrange(0, log.len() as int) == fin.subrange(0, next_log.len() as int).subrange(
            0,
            log.len() as int,
        ));
        assert(next_log.subrange(0, log.len() as int) == log);
    }
}

proof fn lemma_replay_served(reqs: Seq<FrameView>, m: Keyspace, log: Seq<u8>)
    requires
        recorded_wire_safe(reqs, m),
    ensures
        spec_replay(serve_all(reqs, m, log).1, log.len() as int, m) == (
            ReplayedView::Complete,
            serve_all(reqs, m, log).0,
        ),
    decreases reqs.len(),
{
    let fin = serve_all(reqs, m, log);
    if reqs.len() == 0 {
        assert(decode_at(log, log.len() as int, true) == DecodeView::Fail(ErrorView::ConnectionClosed, log.len() as int));
    } else {
        let r = reqs[0];
        let rest = reqs.subrange(1, reqs.len() as int);
        let m1 = spec_execute(r, m).1;
        if is_recorded(r, m) {
            let e = emit(r).0;
            let log1 = log + e;
            assert(log_after(log, r) == log1);
            lemma_replay_served(rest, m1, log1);
            lemma_serve_all_extends(rest, m1, log1);
            assert(fin == serve_all(rest, m1, log1));
            lemma_emit_complete(r);
            assert(fin.1.subrange(log.len() as int, log.len() + e.len() as int) == e) by {
                assert(fin.1.subrange(log.len() as int, log.len() + e.len() as int) == fin.1.subrange(
                    0,
                    log1.len() as int,
                ).subrange(log.len() as int, log1.len() as int));
                assert(log1.subrange(log.len() as int, log1.len() as int) == e);
            }
            lemma_decode_emit(fin.1, log.len() as int, r, true);
        } else {
            lemma_unrecorded_request_keeps_keyspace(r, m);
            let next_log = if is_error_reply(spec_response(r, m)) {
                log
            } else {
                log_after(log, r)
            };
            assert(next_log == log);
            lemma_replay_served(rest, m1, log);
        }
    }
}

/// Restoring from the log reproduces the store: serving requests from the
/// keyspace `m`, starting with an empty log, and then replaying that log into
/// `m` gives the keyspace that serving them gave, as long as every recorded
/// request reads back as itself.
pub proof fn law_replaying_the_log_restores_the_store(reqs: Seq<FrameView>, m: Keyspace)
    requires
        recorded_wire_safe(reqs, m),
    ensures
        spec_replay(serve_all(reqs, m, Seq::empty()).1, 0, m) == (
            ReplayedView::Complete,
            serve_all(reqs, m, Seq::empty()).0,
        ),
{
    lemma_replay_served(reqs, m, Seq::empty());
}

} // verus!
