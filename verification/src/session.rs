//! The per-connection pipeline: repeatedly extract complete frames from the
//! input buffer, run the batch against the store, and keep the unconsumed
//! tail. `Conn` carries the buffers and close flag a reactor needs.
use vstd::prelude::*;
use crate::codec::{Parse, TakeResult, take_args, parse_frame, views_of, lemma_parse_frame_progress};
use crate::reply::{crlf, append_bytes};
use crate::dispatch::{dispatch_reply, dispatch_store, dispatch_close, handle_command};
use crate::store::{Store, StoreModel, distinct_keys};

verus! {

/// What scanning a buffer from a cursor yields: the complete frames (empty
/// ones dropped), the cursor past the consumed prefix, and the protocol
/// error that stopped the scan, if one did.
pub struct Extraction {
    pub frames: Seq<Seq<Seq<u8>>>,
    pub used: int,
    pub err: Option<Seq<u8>>,
}

pub open spec fn extract_frames(s: Seq<u8>, i: int) -> Extraction
    decreases s.len() - i,
{
    match parse_frame(s, i) {
        Parse::Incomplete => Extraction { frames: Seq::empty(), used: i, err: None },
        Parse::Fail { msg } => Extraction { frames: Seq::empty(), used: i, err: Some(msg) },
        Parse::Complete { args, end } => {
            proof {
                lemma_parse_frame_progress(s, i);
            }
            let rest = extract_frames(s, end);
            Extraction {
                frames: if args.len() > 0 {
                    seq![args] + rest.frames
                } else {
                    rest.frames
                },
                used: rest.used,
                err: rest.err,
            }
        },
    }
}

/// The replies of a batch, in command order, stopping after a command that
/// closes the connection.
pub open spec fn batch_output(frames: Seq<Seq<Seq<u8>>>, m: StoreModel) -> Seq<u8>
    decreases frames.len(),
{
    if frames.len() == 0 {
        Seq::empty()
    } else {
        let r = dispatch_reply(frames[0], m);
        if dispatch_close(frames[0]) {
            r
        } else {
            r + batch_output(frames.skip(1), dispatch_store(frames[0], m))
        }
    }
}

/// The store contents after a batch.
pub open spec fn batch_store(frames: Seq<Seq<Seq<u8>>>, m: StoreModel) -> StoreModel
    decreases frames.len(),
{
    if frames.len() == 0 {
        m
    } else {
        let m2 = dispatch_store(frames[0], m);
        if dispatch_close(frames[0]) {
            m2
        } else {
            batch_store(frames.skip(1), m2)
        }
    }
}

/// Whether a batch asks the connection to close.
pub open spec fn batch_close(frames: Seq<Seq<Seq<u8>>>) -> bool
    decreases frames.len(),
{
    if frames.len() == 0 {
        false
    } else {
        dispatch_close(frames[0]) || batch_close(frames.skip(1))
    }
}

/// The bytes a read of `s` produces: either the batch's replies, or a
/// single framed protocol error.
pub open spec fn pipeline_output(s: Seq<u8>, m: StoreModel) -> Seq<u8> {
    let ex = extract_frames(s, 0);
    match ex.err {
        Some(msg) => seq![45u8] + msg + crlf(),
        None => batch_output(ex.frames, m),
    }
}

/// The store after processing `s`: a protocol error runs no command.
pub open spec fn pipeline_store(s: Seq<u8>, m: StoreModel) -> StoreModel {
    let ex = extract_frames(s, 0);
    match ex.err {
        Some(msg) => m,
        None => batch_store(ex.frames, m),
    }
}

/// Whether processing `s` marks the connection for close.
pub open spec fn pipeline_close(s: Seq<u8>) -> bool {
    let ex = extract_frames(s, 0);
    match ex.err {
        Some(msg) => true,
        None => batch_close(ex.frames),
    }
}

/// The spec-level frames a vector of argument vectors holds.
pub open spec fn frame_views(v: Seq<Vec<Vec<u8>>>) -> Seq<Seq<Seq<u8>>> {
    Seq::new(v.len(), |i: int| views_of(v[i]@))
}

pub proof fn lemma_frame_views_push(v: Seq<Vec<Vec<u8>>>, x: Vec<Vec<u8>>)
    ensures
        frame_views(v.push(x)) =~= frame_views(v).push(views_of(x@)),
{
    assert forall|k: int| 0 <= k < frame_views(v.push(x)).len() implies frame_views(v.push(x))[k]
        == frame_views(v).push(views_of(x@))[k] by {
        if k < v.len() {
            assert(v.push(x)[k] == v[k]);
        } else {
            assert(v.push(x)[k] == x);
        }
    }
}

/// Processes every complete frame in `input` against the store. Returns the
/// bytes to send and whether the connection must close; the consumed prefix
/// is dropped from `input` and the unparsed tail kept.
pub fn event_data(input: &mut Vec<u8>, store: &mut Store) -> (r: (Vec<u8>, bool))
    requires
        distinct_keys(old(store)@),
    ensures
        r.0@ == pipeline_output(old(input)@, old(store)@),
        final(store)@ == pipeline_store(old(input)@, old(store)@),
        r.1 == pipeline_close(old(input)@),
        final(input)@ == old(input)@.skip(extract_frames(old(input)@, 0).used),
        distinct_keys(final(store)@),
{
    let ghost s = input@;
    let mut argss: Vec<Vec<Vec<u8>>> = Vec::new();
    let mut i: usize = 0;
    let mut err_out: Option<Vec<u8>> = None;
    proof {
        assert(frame_views(argss@) =~= Seq::<Seq<Seq<u8>>>::empty());
        assert(Seq::<Seq<Seq<u8>>>::empty() + extract_frames(s, 0).frames =~= extract_frames(
            s,
            0,
        ).frames);
    }
    loop
        invariant_except_break
            err_out is None,
        invariant
            i <= input.len(),
            s == input@,
            extract_frames(s, 0).frames == frame_views(argss@) + extract_frames(s, i as int).frames,
            extract_frames(s, 0).used == extract_frames(s, i as int).used,
            extract_frames(s, 0).err == extract_frames(s, i as int).err,
            forall|t: int| 0 <= t < argss@.len() ==> #[trigger] argss@[t]@.len() > 0,
        ensures
            i <= input.len(),
            s == input@,
            forall|t: int| 0 <= t < argss@.len() ==> #[trigger] argss@[t]@.len() > 0,
            extract_frames(s, 0).used == i as int,
            (match err_out {
                None => extract_frames(s, 0).err is None && extract_frames(s, 0).frames
                    == frame_views(argss@),
                Some(m) => extract_frames(s, 0).err == Some(m@),
            }),
        decreases input.len() - i,
    {
        match take_args(input, i) {
            TakeResult::Complete { args, end } => {
                let ghost prevf = frame_views(argss@);
                if args.len() > 0 {
                    proof {
                        lemma_frame_views_push(argss@, args);
                        assert(prevf + (seq![views_of(args@)] + extract_frames(s, end as int).frames)
                            =~= prevf.push(views_of(args@)) + extract_frames(s, end as int).frames);
                    }
                    argss.push(args);
                }
                i = end;
            },
            TakeResult::Incomplete => {
                proof {
                    assert(frame_views(argss@) + Seq::<Seq<Seq<u8>>>::empty() =~= frame_views(
                        argss@,
                    ));
                }
                break ;
            },
            TakeResult::Fail { msg } => {
                err_out = Some(msg);
                break ;
            },
        }
    }
    let ghost ex = extract_frames(s, 0);
    let close: bool;
    let mut output: Vec<u8> = Vec::new();
    match err_out {
        Some(msg) => {
            output.push(45);
            append_bytes(&mut output, &msg);
            output.push(13);
            output.push(10);
            close = true;
            proof {
                assert(output@ =~= seq![45u8] + msg@ + crlf());
            }
        },
        None => {
            let ghost m0 = store@;
            let mut closed = false;
            let mut k: usize = 0;
            proof {
                assert(ex.frames.skip(0) =~= ex.frames);
            }
            while k < argss.len() && !closed
                invariant
                    k <= argss.len(),
                    ex.frames == frame_views(argss@),
                    distinct_keys(store@),
                    forall|t: int| 0 <= t < argss@.len() ==> #[trigger] argss@[t]@.len() > 0,
                    !closed ==> {
                        &&& batch_output(ex.frames, m0) == output@ + batch_output(
                            ex.frames.skip(k as int),
                            store@,
                        )
                        &&& batch_store(ex.frames, m0) == batch_store(
                            ex.frames.skip(k as int),
                            store@,
                        )
                        &&& batch_close(ex.frames) == batch_close(ex.frames.skip(k as int))
                    },
                    closed ==> {
                        &&& batch_output(ex.frames, m0) == output@
                        &&& batch_store(ex.frames, m0) == store@
                        &&& batch_close(ex.frames)
                    },
                decreases argss.len() - k,
            {
                let ghost tail = ex.frames.skip(k as int);
                proof {
                    assert(tail[0] == ex.frames[k as int]);
                    assert(tail.skip(1) =~= ex.frames.skip(k as int + 1));
                    assert(ex.frames[k as int] == views_of(argss@[k as int]@));
                    assert(argss@[k as int]@.len() > 0);
                }
                let frame = &argss[k];
                let (hout, _hwrite, hclose) = handle_command(frame, store);
                let ghost prev_out = output@;
                append_bytes(&mut output, &hout);
                if hclose {
                    closed = true;
                } else {
                    proof {
                        assert((prev_out + hout@) + batch_output(
                            ex.frames.skip(k as int + 1),
                            store@,
                        ) =~= prev_out + (hout@ + batch_output(
                            ex.frames.skip(k as int + 1),
                            store@,
                        )));
                    }
                }
                k = k + 1;
            }
            proof {
                if !closed {
                    assert(ex.frames.skip(argss@.len() as int) =~= Seq::<Seq<Seq<u8>>>::empty());
                    assert(output@ + Seq::<u8>::empty() =~= output@);
                }
            }
            close = closed;
        },
    }
    if i > 0 {
        if i < input.len() {
            let tail = input.split_off(i);
            *input = tail;
        } else {
            input.clear();
        }
    }
    proof {
        assert(input@ =~= s.skip(ex.used));
    }
    (output, close)
}

/// The state of one connection: buffered input not yet parsed, output not
/// yet written, and whether it must close once the output drains.
pub struct Conn {
    pub input: Vec<u8>,
    pub output: Vec<u8>,
    pub close: bool,
}

impl Conn {
    pub fn new() -> (r: Conn)
        ensures
            r.input@ == Seq::<u8>::empty(),
            r.output@ == Seq::<u8>::empty(),
            !r.close,
    {
        Conn { input: Vec::new(), output: Vec::new(), close: false }
    }

    /// Handles bytes read from the socket: buffers them, runs the pipeline,
    /// and queues the replies. Replies are appended in order (FIFO).
    pub fn on_data(&mut self, data: &Vec<u8>, store: &mut Store)
        requires
            distinct_keys(old(store)@),
        ensures
            final(self).input@ == (old(self).input@ + data@).skip(
                extract_frames(old(self).input@ + data@, 0).used,
            ),
            final(self).output@ == old(self).output@ + pipeline_output(
                old(self).input@ + data@,
                old(store)@,
            ),
            final(store)@ == pipeline_store(old(self).input@ + data@, old(store)@),
            final(self).close == (old(self).close || pipeline_close(old(self).input@ + data@)),
            distinct_keys(final(store)@),
    {
        append_bytes(&mut self.input, data);
        let (out, cl) = event_data(&mut self.input, store);
        append_bytes(&mut self.output, &out);
        if cl {
            self.close = true;
        }
    }

    /// Records that the first `n` queued bytes were written to the socket.
    pub fn wrote(&mut self, n: usize)
        requires
            n <= old(self).output@.len(),
        ensures
            final(self).output@ == old(self).output@.skip(n as int),
            final(self).input == old(self).input,
            final(self).close == old(self).close,
    {
        let rest = self.output.split_off(n);
        self.output = rest;
        proof {
            assert(self.output@ =~= old(self).output@.skip(n as int));
        }
    }

    /// A connection is dropped once it is marked closed and drained.
    pub fn should_drop(&self) -> (r: bool)
        ensures
            r == (self.close && self.output@.len() == 0),
    {
        self.close && self.output.len() == 0
    }
}

} // verus!
