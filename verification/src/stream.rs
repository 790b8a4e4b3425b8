//! Output streaming.
//!
//! While the remote command runs, its standard output and standard error
//! are polled without blocking, in turns, one read of each per iteration.
//! A read either yields data, yields nothing yet ("would block" included),
//! or fails; end-of-stream on the channel ends the loop. Bytes are relayed
//! in the order read, within each stream, with nothing dropped or repeated.

use vstd::prelude::*;

verus! {

/// One non-blocking read from a remote stream.
pub enum ReadEvent {
    /// Some bytes arrived (never empty in a faithful transport, though
    /// nothing here depends on that).
    Data(Vec<u8>),
    /// Nothing to read yet; a would-block condition lands here.
    NoData,
    /// The read failed for real: fatal.
    Failed,
}

/// The bytes an event carries.
pub open spec fn event_bytes(ev: ReadEvent) -> Seq<u8> {
    match ev {
        ReadEvent::Data(d) => d@,
        _ => Seq::empty(),
    }
}

/// One polling iteration's worth of input: whether the channel already
/// reported end-of-stream, and the two reads.
pub struct PollEvent {
    pub eof: bool,
    pub out: ReadEvent,
    pub err: ReadEvent,
}

/// What one iteration decides.
#[derive(Clone, Copy, PartialEq, Eq, Structural, Debug)]
pub enum PollDecision {
    /// End-of-stream: streaming is over.
    Finish,
    /// The standard-output read failed: abort, relaying nothing more.
    FatalOut,
    /// The standard-error read failed: abort after relaying this
    /// iteration's standard-output bytes.
    FatalErr,
    /// Relay what arrived and poll again at once.
    Forward,
    /// Nothing arrived: sleep briefly before the next poll.
    Rest,
}

/// The decision an iteration's input calls for.
pub open spec fn decision_spec(ev: PollEvent) -> PollDecision {
    if ev.eof {
        PollDecision::Finish
    } else if ev.out is Failed {
        PollDecision::FatalOut
    } else if ev.err is Failed {
        PollDecision::FatalErr
    } else if ev.out is Data || ev.err is Data {
        PollDecision::Forward
    } else {
        PollDecision::Rest
    }
}

/// Decide one polling iteration. A would-block read is no error; end of
/// stream, not an idle iteration, finishes the loop; an idle iteration
/// asks for a brief sleep so the loop does not spin.
pub fn poll_decision(ev: &PollEvent) -> (d: PollDecision)
    ensures
        d == decision_spec(*ev),
{
    if ev.eof {
        PollDecision::Finish
    } else {
        match ev.out {
            ReadEvent::Failed => PollDecision::FatalOut,
            _ => match ev.err {
                ReadEvent::Failed => PollDecision::FatalErr,
                _ => {
                    let out_data = match ev.out {
                        ReadEvent::Data(_) => true,
                        _ => false,
                    };
                    let err_data = match ev.err {
                        ReadEvent::Data(_) => true,
                        _ => false,
                    };
                    if out_data || err_data {
                        PollDecision::Forward
                    } else {
                        PollDecision::Rest
                    }
                },
            },
        }
    }
}

/// Everything streaming relays and reports: the bytes relayed to the local
/// standard output and standard error, whether any data was seen, whether
/// the loop ended at end-of-stream (as opposed to running out of events),
/// and whether a read failed.
pub struct StreamModel {
    pub stdout: Seq<u8>,
    pub stderr: Seq<u8>,
    pub streamed: bool,
    pub finished: bool,
    pub ok: bool,
}

/// Streaming from event `i` on.
pub open spec fn stream_from(evs: Seq<PollEvent>, i: nat) -> StreamModel
    decreases evs.len() - i,
{
    if i >= evs.len() {
        StreamModel {
            stdout: Seq::empty(),
            stderr: Seq::empty(),
            streamed: false,
            finished: false,
            ok: true,
        }
    } else {
        let e = evs[i as int];
        match decision_spec(e) {
            PollDecision::Finish => StreamModel {
                stdout: Seq::empty(),
                stderr: Seq::empty(),
                streamed: false,
                finished: true,
                ok: true,
            },
            PollDecision::FatalOut => StreamModel {
                stdout: Seq::empty(),
                stderr: Seq::empty(),
                streamed: false,
                finished: false,
                ok: false,
            },
            PollDecision::FatalErr => StreamModel {
                stdout: event_bytes(e.out),
                stderr: Seq::empty(),
                streamed: e.out is Data,
                finished: false,
                ok: false,
            },
            _ => {
                let rest = stream_from(evs, i + 1);
                StreamModel {
                    stdout: event_bytes(e.out) + rest.stdout,
                    stderr: event_bytes(e.err) + rest.stderr,
                    streamed: e.out is Data || e.err is Data || rest.streamed,
                    finished: rest.finished,
                    ok: rest.ok,
                }
            },
        }
    }
}

/// What streaming a whole event sequence relays and reports.
pub open spec fn stream_spec(evs: Seq<PollEvent>) -> StreamModel {
    stream_from(evs, 0)
}

/// The outcome of a streaming run, as plain values.
pub struct StreamOutcome {
    pub stdout: Vec<u8>,
    pub stderr: Vec<u8>,
    pub streamed: bool,
    pub finished: bool,
    pub ok: bool,
}

/// Append a copy of `src` to `dst`.
fn append_bytes(dst: &mut Vec<u8>, src: &Vec<u8>)
    ensures
        final(dst)@ == old(dst)@ + src@,
{
    let mut k: usize = 0;
    while k < src.len()
        invariant
            k <= src@.len(),
            dst@ =~= old(dst)@ + src@.take(k as int),
        decreases src@.len() - k,
    {
        dst.push(src[k]);
        proof {
            assert(dst@ =~= old(dst)@ + src@.take(k + 1 as int));
        }
        k = k + 1;
    }
    proof {
        assert(old(dst)@ + src@.take(src@.len() as int) =~= old(dst)@ + src@);
    }
}

/// Run the polling loop over the given events. Stream ordering holds: the
/// relayed standard-output bytes are exactly the data-carrying
/// standard-output reads, concatenated in order, up to end-of-stream or a
/// fatal read error, with nothing dropped or repeated across would-block
/// retries; likewise for standard error. Nothing interleaves the two
/// streams' own orders.
pub fn stream(events: &Vec<PollEvent>) -> (r: StreamOutcome)
    ensures
        r.stdout@ == stream_spec(events@).stdout,
        r.stderr@ == stream_spec(events@).stderr,
        r.streamed == stream_spec(events@).streamed,
        r.finished == stream_spec(events@).finished,
        r.ok == stream_spec(events@).ok,
{
    let mut out: Vec<u8> = Vec::new();
    let mut err: Vec<u8> = Vec::new();
    let mut streamed = false;
    let mut i: usize = 0;
    let n = events.len();
    while i < n
        invariant
            n == events@.len(),
            i <= n,
            stream_spec(events@).stdout == out@ + stream_from(events@, i as nat).stdout,
            stream_spec(events@).stderr == err@ + stream_from(events@, i as nat).stderr,
            stream_spec(events@).streamed == (streamed || stream_from(events@, i as nat).streamed),
            stream_spec(events@).finished == stream_from(events@, i as nat).finished,
            stream_spec(events@).ok == stream_from(events@, i as nat).ok,
        decreases n - i,
    {
        let ev = &events[i];
        match poll_decision(ev) {
            PollDecision::Finish => {
                proof {
                    assert(stream_spec(events@).stdout =~= out@);
                    assert(stream_spec(events@).stderr =~= err@);
                }
                return StreamOutcome { stdout: out, stderr: err, streamed, finished: true, ok: true };
            },
            PollDecision::FatalOut => {
                proof {
                    assert(stream_spec(events@).stdout =~= out@);
                    assert(stream_spec(events@).stderr =~= err@);
                }
                return StreamOutcome { stdout: out, stderr: err, streamed, finished: false, ok: false };
            },
            PollDecision::FatalErr => {
                match &ev.out {
                    ReadEvent::Data(d) => {
                        append_bytes(&mut out, d);
                        streamed = true;
                    },
                    _ => {},
                }
                proof {
                    assert(stream_spec(events@).stdout =~= out@);
                    assert(stream_spec(events@).stderr =~= err@);
                }
                return StreamOutcome { stdout: out, stderr: err, streamed, finished: false, ok: false };
            },
            _ => {
                let ghost out0 = out@;
                let ghost err0 = err@;
                match &ev.out {
                    ReadEvent::Data(d) => {
                        append_bytes(&mut out, d);
                        streamed = true;
                    },
                    _ => {},
                }
                match &ev.err {
                    ReadEvent::Data(d) => {
                        append_bytes(&mut err, d);
                        streamed = true;
                    },
                    _ => {},
                }
                proof {
                    let e = events@[i as int];
                    assert(out@ =~= out0 + event_bytes(e.out));
                    assert(err@ =~= err0 + event_bytes(e.err));
                    assert(out0 + (event_bytes(e.out) + stream_from(events@, i as nat + 1).stdout)
                        =~= out@ + stream_from(events@, i as nat + 1).stdout);
                    assert(err0 + (event_bytes(e.err) + stream_from(events@, i as nat + 1).stderr)
                        =~= err@ + stream_from(events@, i as nat + 1).stderr);
                }
            },
        }
        i = i + 1;
    }
    proof {
        assert(stream_spec(events@).stdout =~= out@);
        assert(stream_spec(events@).stderr =~= err@);
    }
    StreamOutcome { stdout: out, stderr: err, streamed, finished: false, ok: true }
}

} // verus!
