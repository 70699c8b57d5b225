//! Replaying a capture held in memory through the engine: every record in
//! turn becomes a frame for `Engine::process`, and the alerts it raises are
//! collected in order.
use vstd::prelude::*;

use crate::alert::{Alert, AlertModel};
use crate::engine::{processed, Engine, EXPIRY_INTERVAL_US};
use crate::error::ParseError;
use crate::packet::{Frame, LinkType, Packet};
use crate::pcap::{
    capture_spec, lemma_capture_reads_back, reads_back, record_spec, writable, written_header, PcapError,
    PcapErrorModel, PcapReader, RecordHeader, GLOBAL_HEADER_LEN, MAX_RECORD_LEN, RECORD_HEADER_LEN,
};
use crate::rules::alert_views;

verus! {

/// Why a replay stopped before the end of the capture.
#[derive(Debug)]
pub enum ReplayError {
    /// The capture could not be read on.
    Capture(PcapError),
    /// A record would run the engine's counters or clock past their limits.
    Overflow,
}

pub enum ReplayErrorModel {
    Capture(PcapErrorModel),
    Overflow,
}

impl View for ReplayError {
    type V = ReplayErrorModel;

    open spec fn view(&self) -> ReplayErrorModel {
        match self {
            ReplayError::Capture(e) => ReplayErrorModel::Capture(e@),
            ReplayError::Overflow => ReplayErrorModel::Overflow,
        }
    }
}

impl ReplayError {
    /// The message that reports the error.
    pub fn describe(&self) -> (s: String)
        ensures
            match self {
                ReplayError::Capture(e) => s@ == e@.describe_spec(),
                ReplayError::Overflow => s@ == "capture exceeds the engine's counters"@,
            },
    {
        match self {
            ReplayError::Capture(e) => e.describe(),
            ReplayError::Overflow => "capture exceeds the engine's counters".to_owned(),
        }
    }
}

/// `e2` is `mid` once its pending alerts are handed over.
pub open spec fn drained(mid: Engine, e2: Engine) -> bool {
    &&& e2.config_spec() == mid.config_spec()
    &&& e2.table() == mid.table()
    &&& e2.counters_spec() == mid.counters_spec()
    &&& e2.last_ts() == mid.last_ts()
    &&& e2.next_expiry() == mid.next_expiry()
    &&& e2.rule_engine() == mid.rule_engine()
    &&& e2.pending() == Seq::<AlertModel>::empty()
}

/// The engine `e` takes the record with header `h` and bytes `data` (see
/// `Engine::process`) and hands over its pending alerts `a`, which leaves
/// it as `e2`.
pub open spec fn took<F: Fn(&str, u64) -> bool>(
    f: F,
    e: Engine,
    h: RecordHeader,
    data: Seq<u8>,
    e2: Engine,
    a: Seq<AlertModel>,
) -> bool {
    exists|frame: Frame, mid: Engine, r: Result<Packet, ParseError>|
        {
            &&& frame.ts_us == h.ts_us
            &&& frame.wire_len == h.wire_len
            &&& frame.data@ == data
            &&& #[trigger] processed(f, e, frame, mid, r)
            &&& a == mid.pending()
            &&& drained(mid, e2)
        }
}

/// The engine's counters and clock can take the record with header `h`.
pub open spec fn room(e: Engine, h: RecordHeader) -> bool {
    &&& e.counters_spec().packets < u64::MAX
    &&& e.counters_spec().bytes + h.wire_len <= u64::MAX
    &&& h.ts_us + e.config_spec().flow_idle_timeout_us + EXPIRY_INTERVAL_US <= u64::MAX
}

/// The engine a replay ends with: the last one it went through, or `e`
/// when it went through none.
pub open spec fn last_engine(e: Engine, mids: Seq<Engine>) -> Engine {
    if mids.len() == 0 {
        e
    } else {
        mids.last()
    }
}

/// Replaying the records of the capture `d` from `pos` on (see
/// `record_spec`), the engine `e` takes record `i` and is left as
/// `mids[i]`, having handed over the alerts `chunks[i]`; `end` is why the
/// replay stopped before the end of the capture, if it did.
pub open spec fn replayed<F: Fn(&str, u64) -> bool>(
    f: F,
    e: Engine,
    d: Seq<u8>,
    pos: int,
    swapped: bool,
    nanos: bool,
    mids: Seq<Engine>,
    chunks: Seq<Seq<AlertModel>>,
    end: Option<ReplayErrorModel>,
) -> bool
    decreases d.len() - pos,
{
    let (res, next) = record_spec(d, pos, swapped, nanos);
    match res {
        Ok(None) => mids.len() == 0 && chunks.len() == 0 && end is None,
        Err(err) => mids.len() == 0 && chunks.len() == 0 && end == Some(ReplayErrorModel::Capture(err)),
        Ok(Some((h, body))) => if !room(e, h) {
            mids.len() == 0 && chunks.len() == 0 && end == Some(ReplayErrorModel::Overflow)
        } else if pos < next && mids.len() > 0 && chunks.len() > 0 {
            &&& took(f, e, h, d.subrange(body, body + h.cap_len), mids[0], chunks[0])
            &&& replayed(f, mids[0], d, next, swapped, nanos, mids.drop_first(), chunks.drop_first(), end)
        } else {
            false
        },
    }
}

/// A replay counts each record it takes once: the engine it ends with has
/// counted as many packets more as the records it took.
pub proof fn lemma_replay_counts_records<F: Fn(&str, u64) -> bool>(
    f: F,
    e: Engine,
    d: Seq<u8>,
    pos: int,
    swapped: bool,
    nanos: bool,
    mids: Seq<Engine>,
    chunks: Seq<Seq<AlertModel>>,
    end: Option<ReplayErrorModel>,
)
    requires
        replayed(f, e, d, pos, swapped, nanos, mids, chunks, end),
    ensures
        last_engine(e, mids).counters_spec().packets == e.counters_spec().packets + mids.len(),
    decreases d.len() - pos,
{
    let (res, next) = record_spec(d, pos, swapped, nanos);
    if let Ok(Some((h, body))) = res {
        if room(e, h) && pos < next && mids.len() > 0 {
            let data = d.subrange(body, body + h.cap_len);
            let (frame, mid, r) = choose|frame: Frame, mid: Engine, r: Result<Packet, ParseError>|
                {
                    &&& frame.ts_us == h.ts_us
                    &&& frame.wire_len == h.wire_len
                    &&& frame.data@ == data
                    &&& #[trigger] processed(f, e, frame, mid, r)
                    &&& chunks[0] == mid.pending()
                    &&& drained(mid, mids[0])
                };
            assert(mids[0].counters_spec().packets == e.counters_spec().packets + 1);
            lemma_replay_counts_records(
                f,
                mids[0],
                d,
                next,
                swapped,
                nanos,
                mids.drop_first(),
                chunks.drop_first(),
                end,
            );
            assert(last_engine(mids[0], mids.drop_first()) == last_engine(e, mids));
        }
    }
}

/// The engine a replay took record `i` with: `e` for the first, else the
/// one the record before left.
pub open spec fn engine_before(e: Engine, mids: Seq<Engine>, i: int) -> Engine {
    if i == 0 {
        e
    } else {
        mids[i - 1]
    }
}

proof fn lemma_replay_reads<F: Fn(&str, u64) -> bool>(
    f: F,
    e: Engine,
    d: Seq<u8>,
    pos: int,
    frames: Seq<(u64, Seq<u8>)>,
    mids: Seq<Engine>,
    chunks: Seq<Seq<AlertModel>>,
    end: Option<ReplayErrorModel>,
)
    requires
        forall|i: int| 0 <= i < frames.len() ==> (#[trigger] frames[i]).1.len() <= MAX_RECORD_LEN,
        reads_back(d, pos, frames),
        replayed(f, e, d, pos, false, false, mids, chunks, end),
    ensures
        end is None || end == Some(ReplayErrorModel::Overflow),
        chunks.len() == mids.len(),
        mids.len() <= frames.len(),
        end is None ==> mids.len() == frames.len(),
        forall|i: int|
            0 <= i < mids.len() ==> #[trigger] took(
                f,
                engine_before(e, mids, i),
                written_header(frames[i]),
                frames[i].1,
                mids[i],
                chunks[i],
            ),
    decreases frames.len(),
{
    reveal(reads_back);
    if frames.len() > 0 {
        let h = written_header(frames[0]);
        let body = pos + RECORD_HEADER_LEN;
        let next = body + frames[0].1.len();
        assert(frames[0].1.len() <= MAX_RECORD_LEN);
        assert(h.cap_len == frames[0].1.len());
        if room(e, h) {
            let rest = frames.drop_first();
            assert forall|i: int| 0 <= i < rest.len() implies (#[trigger] rest[i]).1.len() <= MAX_RECORD_LEN by {
                assert(rest[i] == frames[i + 1]);
            }
            lemma_replay_reads(f, mids[0], d, next, rest, mids.drop_first(), chunks.drop_first(), end);
            assert forall|i: int| 0 <= i < mids.len() implies #[trigger] took(
                f,
                engine_before(e, mids, i),
                written_header(frames[i]),
                frames[i].1,
                mids[i],
                chunks[i],
            ) by {
                if i > 0 {
                    assert(rest[i - 1] == frames[i]);
                    assert(mids.drop_first()[i - 1] == mids[i]);
                    assert(chunks.drop_first()[i - 1] == chunks[i]);
                    assert(engine_before(mids[0], mids.drop_first(), i - 1) == engine_before(e, mids, i));
                    assert(took(
                        f,
                        engine_before(mids[0], mids.drop_first(), i - 1),
                        written_header(rest[i - 1]),
                        rest[i - 1].1,
                        mids.drop_first()[i - 1],
                        chunks.drop_first()[i - 1],
                    ));
                }
            }
        }
    }
}

/// Replaying a capture that was written from `frames` takes the frames
/// in order: record `i` is frame `i`, with its time and its length as both
/// lengths, and the replay either takes them all and stops at the end of
/// the capture, or stops early only where the engine has no room for the
/// next one. This holds for frames that can be written and are at most
/// `MAX_RECORD_LEN` bytes, the most that is read.
pub proof fn lemma_written_capture_replays<F: Fn(&str, u64) -> bool>(
    f: F,
    e: Engine,
    frames: Seq<(u64, Seq<u8>)>,
    link: LinkType,
    snaplen: u32,
    b: Seq<u8>,
    mids: Seq<Engine>,
    chunks: Seq<Seq<AlertModel>>,
    end: Option<ReplayErrorModel>,
)
    requires
        forall|i: int| 0 <= i < frames.len() ==> writable(#[trigger] frames[i]) && frames[i].1.len() <= MAX_RECORD_LEN,
        capture_spec(frames, link, snaplen) == Ok::<Seq<u8>, PcapErrorModel>(b),
        replayed(f, e, b, GLOBAL_HEADER_LEN as int, false, false, mids, chunks, end),
    ensures
        end is None || end == Some(ReplayErrorModel::Overflow),
        chunks.len() == mids.len(),
        mids.len() <= frames.len(),
        end is None ==> mids.len() == frames.len(),
        forall|i: int|
            0 <= i < mids.len() ==> #[trigger] took(
                f,
                engine_before(e, mids, i),
                written_header(frames[i]),
                frames[i].1,
                mids[i],
                chunks[i],
            ),
{
    lemma_capture_reads_back(frames, link, snaplen);
    assert forall|i: int| 0 <= i < frames.len() implies (#[trigger] frames[i]).1.len() <= MAX_RECORD_LEN by {}
    lemma_replay_reads(f, e, b, GLOBAL_HEADER_LEN as int, frames, mids, chunks, end);
}

/// Whatever replaying on from `pos` with engine `e` goes through, replaying
/// from `p0` with `e0` goes through too, after the engines `mids` and the
/// alerts `chunks`.
#[verifier::opaque]
pub open spec fn continues<F: Fn(&str, u64) -> bool>(
    f: F,
    e0: Engine,
    d: Seq<u8>,
    p0: int,
    swapped: bool,
    nanos: bool,
    e: Engine,
    pos: int,
    mids: Seq<Engine>,
    chunks: Seq<Seq<AlertModel>>,
) -> bool {
    forall|m: Seq<Engine>, c: Seq<Seq<AlertModel>>, end: Option<ReplayErrorModel>|
        #[trigger] replayed(f, e, d, pos, swapped, nanos, m, c, end) ==> replayed(
            f,
            e0,
            d,
            p0,
            swapped,
            nanos,
            mids + m,
            chunks + c,
            end,
        )
}

proof fn lemma_continues_start<F: Fn(&str, u64) -> bool>(f: F, e0: Engine, d: Seq<u8>, p0: int, swapped: bool, nanos: bool)
    ensures
        continues(f, e0, d, p0, swapped, nanos, e0, p0, Seq::<Engine>::empty(), Seq::<Seq<AlertModel>>::empty()),
{
    reveal(continues);
    assert forall|m: Seq<Engine>, c: Seq<Seq<AlertModel>>, end: Option<ReplayErrorModel>|
        #[trigger] replayed(f, e0, d, p0, swapped, nanos, m, c, end) implies replayed(
            f,
            e0,
            d,
            p0,
            swapped,
            nanos,
            Seq::<Engine>::empty() + m,
            Seq::<Seq<AlertModel>>::empty() + c,
            end,
        ) by {
        assert(Seq::<Engine>::empty() + m =~= m);
        assert(Seq::<Seq<AlertModel>>::empty() + c =~= c);
    }
}

proof fn lemma_continues_step<F: Fn(&str, u64) -> bool>(
    f: F,
    e0: Engine,
    d: Seq<u8>,
    p0: int,
    swapped: bool,
    nanos: bool,
    e1: Engine,
    pos: int,
    mids: Seq<Engine>,
    chunks: Seq<Seq<AlertModel>>,
    h: RecordHeader,
    body: int,
    e: Engine,
    got: Seq<AlertModel>,
)
    requires
        continues(f, e0, d, p0, swapped, nanos, e1, pos, mids, chunks),
        record_spec(d, pos, swapped, nanos).0 == Ok::<Option<(RecordHeader, int)>, PcapErrorModel>(Some((h, body))),
        room(e1, h),
        took(f, e1, h, d.subrange(body, body + h.cap_len), e, got),
    ensures
        continues(f, e0, d, p0, swapped, nanos, e, record_spec(d, pos, swapped, nanos).1, mids.push(e), chunks.push(got)),
{
    reveal(continues);
    let next = record_spec(d, pos, swapped, nanos).1;
    assert(pos < next);
    assert forall|m: Seq<Engine>, c: Seq<Seq<AlertModel>>, end: Option<ReplayErrorModel>|
        #[trigger] replayed(f, e, d, next, swapped, nanos, m, c, end) implies replayed(
            f,
            e0,
            d,
            p0,
            swapped,
            nanos,
            mids.push(e) + m,
            chunks.push(got) + c,
            end,
        ) by {
        let m1 = seq![e] + m;
        let c1 = seq![got] + c;
        assert(m1.drop_first() =~= m);
        assert(c1.drop_first() =~= c);
        assert(replayed(f, e1, d, pos, swapped, nanos, m1, c1, end));
        assert(mids + m1 =~= mids.push(e) + m);
        assert(chunks + c1 =~= chunks.push(got) + c);
    }
}

proof fn lemma_continues_stop<F: Fn(&str, u64) -> bool>(
    f: F,
    e0: Engine,
    d: Seq<u8>,
    p0: int,
    swapped: bool,
    nanos: bool,
    e1: Engine,
    pos: int,
    mids: Seq<Engine>,
    chunks: Seq<Seq<AlertModel>>,
    end: Option<ReplayErrorModel>,
)
    requires
        continues(f, e0, d, p0, swapped, nanos, e1, pos, mids, chunks),
        replayed(f, e1, d, pos, swapped, nanos, Seq::<Engine>::empty(), Seq::<Seq<AlertModel>>::empty(), end),
    ensures
        replayed(f, e0, d, p0, swapped, nanos, mids, chunks, end),
{
    reveal(continues);
    assert(mids + Seq::<Engine>::empty() =~= mids);
    assert(chunks + Seq::<Seq<AlertModel>>::empty() =~= chunks);
}

/// Feeds the records of `reader`, from where it stands to the end of the
/// capture, to the engine, and returns the alerts they raised, in order (see
/// `replayed`). A record that fails to decode is only counted by the
/// engine; a record that cannot be read, or that the engine's counters or
/// clock have no room for, stops the replay with an error.
pub fn replay<F: Fn(&str, u64) -> bool>(engine: &mut Engine, reader: &mut PcapReader<'_>, f: &F) -> (r: Result<
    Vec<Alert>,
    ReplayError,
>)
    requires
        old(engine).wf(),
        old(reader).wf(),
        forall|l: &str, b: u64| call_requires(*f, (l, b)),
    ensures
        final(engine).wf(),
        match r {
            Ok(v) => exists|mids: Seq<Engine>, chunks: Seq<Seq<AlertModel>>|
                {
                    &&& #[trigger] replayed(
                        *f,
                        *old(engine),
                        old(reader).bytes(),
                        old(reader).position(),
                        old(reader).swapped(),
                        old(reader).nanos(),
                        mids,
                        chunks,
                        None,
                    )
                    &&& *final(engine) == last_engine(*old(engine), mids)
                    &&& alert_views(v@) == chunks.flatten()
                },
            Err(err) => exists|mids: Seq<Engine>, chunks: Seq<Seq<AlertModel>>|
                {
                    &&& #[trigger] replayed(
                        *f,
                        *old(engine),
                        old(reader).bytes(),
                        old(reader).position(),
                        old(reader).swapped(),
                        old(reader).nanos(),
                        mids,
                        chunks,
                        Some(err@),
                    )
                    &&& *final(engine) == last_engine(*old(engine), mids)
                },
        },
{
    let ghost e0 = *engine;
    let ghost d = reader.bytes();
    let ghost p0 = reader.position();
    let ghost sw = reader.swapped();
    let ghost na = reader.nanos();
    let ghost mut mids: Seq<Engine> = Seq::empty();
    let ghost mut chunks: Seq<Seq<AlertModel>> = Seq::empty();
    let mut buf: Vec<u8> = Vec::new();
    let mut alerts: Vec<Alert> = Vec::new();
    proof {
        lemma_continues_start(*f, e0, d, p0, sw, na);
        assert(alert_views(alerts@) =~= chunks.flatten());
    }
    loop
        invariant
            engine.wf(),
            reader.wf(),
            e0 == *old(engine),
            d == old(reader).bytes(),
            p0 == old(reader).position(),
            sw == old(reader).swapped(),
            na == old(reader).nanos(),
            reader.bytes() == d,
            reader.swapped() == sw,
            reader.nanos() == na,
            forall|l: &str, b: u64| call_requires(*f, (l, b)),
            *engine == last_engine(e0, mids),
            alert_views(alerts@) == chunks.flatten(),
            continues(*f, e0, d, p0, sw, na, *engine, reader.position(), mids, chunks),
        decreases d.len() - reader.position(),
    {
        let ghost e1 = *engine;
        let ghost pos = reader.position();
        proof {
            reader.lemma_position();
        }
        let rec = match reader.next_record(&mut buf) {
            Ok(Some(h)) => h,
            Ok(None) => {
                proof {
                    lemma_continues_stop(*f, e0, d, p0, sw, na, e1, pos, mids, chunks, None);
                }
                return Ok(alerts);
            },
            Err(err) => {
                proof {
                    lemma_continues_stop(*f, e0, d, p0, sw, na, e1, pos, mids, chunks, Some(ReplayError::Capture(err)@));
                }
                return Err(ReplayError::Capture(err));
            },
        };
        let ghost body = pos + RECORD_HEADER_LEN;
        let ghost data = d.subrange(body, body + rec.cap_len);
        assert(record_spec(d, pos, sw, na).0 == Ok::<Option<(RecordHeader, int)>, PcapErrorModel>(Some((rec, body))));
        assert(body + rec.cap_len <= d.len());
        assert(rec.cap_len <= MAX_RECORD_LEN);
        assert(buf@ == data);
        let c = engine.counters();
        let timeout = engine.config().flow_idle_timeout_us;
        if c.packets == u64::MAX || c.bytes > u64::MAX - rec.wire_len as u64 || rec.ts_us > u64::MAX - timeout
            || rec.ts_us + timeout > u64::MAX - EXPIRY_INTERVAL_US {
            proof {
                lemma_continues_stop(*f, e0, d, p0, sw, na, e1, pos, mids, chunks, Some(ReplayError::Overflow@));
            }
            return Err(ReplayError::Overflow);
        }
        let frame = Frame { ts_us: rec.ts_us, wire_len: rec.wire_len, data: buf.as_slice() };
        let r = engine.process(&frame, f);
        let ghost mid = *engine;
        let mut fresh = engine.drain_alerts();
        let ghost got = alert_views(fresh@);
        proof {
            assert(processed(*f, e1, frame, mid, r));
            assert(took(*f, e1, rec, data, *engine, got));
            lemma_continues_step(*f, e0, d, p0, sw, na, e1, pos, mids, chunks, rec, body, *engine, got);
            chunks.lemma_flatten_push(got);
            mids = mids.push(*engine);
            chunks = chunks.push(got);
        }
        alerts.append(&mut fresh);
        assert(alert_views(alerts@) =~= chunks.flatten());
    }
}

} // verus!
