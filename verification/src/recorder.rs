//! The recorder's settings and the decisions it takes on each demodulated
//! bit while recording.
//!
//! Like the modem's receiver, the recorder waits for the start frame
//! delimiter, reads a 36-bit physical header and then the announced data
//! link frame; it does not abort on unrecognised tones, and after a frame it
//! listens again without clearing the last eight bits.
use vstd::prelude::*;

use crate::datalink::frame::{fcs_consistent, parse_datalink, Datalink, DatalinkView};
use crate::datalink::enums::is_frame_type_bits;
use crate::modem::protocol::signed_as_bits;
use crate::modem::reception::{
    as_bits, as_signed, empty_window, frame_signal, initial_receiver, is_delimiter, lead_in,
    lemma_frame_phases, lemma_lead_in_of_signal, lemma_run_step, lemma_sent_frame_readable,
    mismatch_at, readable_frame, receivable, run_receiver, runs_without_fault, shift_in,
    shift_window, ReceiverState,
};
use crate::physical::frame::{is_modulation_bits, physical_from, ModulationType, Physical};
use crate::{Status, ISFD};

verus! {

/// Settings of an audio recording.
#[derive(Debug)]
pub struct Recorder {
    samplerate: u32,
    latency: u32,
    channels: u16,
    device: Option<String>,
    running: bool,
    roop: bool,
}

/// The settings of a recorder.
#[verifier::ext_equal]
pub struct RecorderView {
    pub samplerate: u32,
    pub latency: u32,
    pub channels: u16,
    pub device: Option<Seq<char>>,
    pub running: bool,
}

impl View for Recorder {
    type V = RecorderView;

    closed spec fn view(&self) -> RecorderView {
        RecorderView {
            samplerate: self.samplerate,
            latency: self.latency,
            channels: self.channels,
            device: match self.device {
                Some(d) => Some(d@),
                None => None,
            },
            running: self.running,
        }
    }
}

impl Recorder {
    /// A recorder on the default input device, not yet running.
    pub fn new(samplerate: u32, latency: u32, channels: u16) -> (r: Self)
        ensures
            r@ == (RecorderView { samplerate, latency, channels, device: None, running: false }),
    {
        Recorder { samplerate, latency, channels, device: None, running: false, roop: false }
    }

    /// Records from the input device named `device`.
    pub fn device(&mut self, device: &str)
        ensures
            final(self)@ == (RecorderView { device: Some(device@), ..old(self)@ }),
    {
        self.device = Some(String::from_str(device));
    }

    /// Marks the recording as started.
    pub fn start(&mut self)
        ensures
            final(self)@ == (RecorderView { running: true, ..old(self)@ }),
    {
        self.running = true;
    }

    pub fn samplerate(&self) -> (s: u32)
        ensures
            s == self@.samplerate,
    {
        self.samplerate
    }

    pub fn latency(&self) -> (l: u32)
        ensures
            l == self@.latency,
    {
        self.latency
    }

    pub fn channels(&self) -> (c: u16)
        ensures
            c == self@.channels,
    {
        self.channels
    }

    /// The name of the input device, if one was chosen.
    pub fn device_name(&self) -> (d: Option<&str>)
        ensures
            match d {
                Some(s) => self@.device == Some(s@),
                None => self@.device is None,
            },
    {
        match &self.device {
            Some(d) => Some(d.as_str()),
            None => None,
        }
    }
}

/// What one bit made the recorder do.
pub enum Recording {
    /// Nothing to report.
    Idle,
    /// The start frame delimiter was recognised.
    SfdDetected,
    /// The physical header was read.
    HeaderRead(Physical),
    /// The announced frame was read; whether its check sequence matched.
    FrameRead { datalink: Datalink, checksum_ok: bool },
}

/// What one bit made the recorder do, as values.
#[verifier::ext_equal]
pub enum RecordingView {
    Idle,
    SfdDetected,
    HeaderRead(Physical),
    FrameRead(DatalinkView, bool),
}

impl View for Recording {
    type V = RecordingView;

    open spec fn view(&self) -> RecordingView {
        match self {
            Recording::Idle => RecordingView::Idle,
            Recording::SfdDetected => RecordingView::SfdDetected,
            Recording::HeaderRead(h) => RecordingView::HeaderRead(*h),
            Recording::FrameRead { datalink, checksum_ok } => RecordingView::FrameRead(
                datalink@,
                *checksum_ok,
            ),
        }
    }
}

/// The step at which the recorder reads the physical header.
pub open spec fn recorder_header_due(s: ReceiverState) -> bool {
    &&& s.status == Status::RECEIVING
    &&& s.input_data.len() + 1 == 36
    &&& s.frame_length == 0
    &&& s.phy_frame is None
}

/// The bit would make the recorder stop with a panic: a header of unknown
/// modulation type, or announced bits that are no readable data link frame
/// (too short, an unknown frame type).
pub open spec fn recorder_faults(s: ReceiverState, bit: i8) -> bool {
    let input = signed_as_bits(s.input_data.push(bit));
    ||| recorder_header_due(s) && !is_modulation_bits(input.take(4))
    ||| s.status == Status::ANSWER && !(input.len() >= 68 && is_frame_type_bits(input.take(4)))
}

/// The recorder's state and report after one more bit.
pub open spec fn recorder_step(s: ReceiverState, bit: i8) -> (ReceiverState, RecordingView) {
    let w = shift_in(s.recent_bin, bit);
    match s.status {
        Status::LISTENING => {
            if w == ISFD@ {
                (
                    ReceiverState { recent_bin: w, status: Status::RECEIVING, ..s },
                    RecordingView::SfdDetected,
                )
            } else {
                (ReceiverState { recent_bin: w, ..s }, RecordingView::Idle)
            }
        },
        Status::RECEIVING => {
            let input = s.input_data.push(bit);
            let header = physical_from(signed_as_bits(input));
            let due = recorder_header_due(s);
            let input2 = if due {
                Seq::<i8>::empty()
            } else {
                input
            };
            let length = if due {
                header.length as nat
            } else {
                s.frame_length
            };
            let phy = if due {
                Some(header)
            } else {
                s.phy_frame
            };
            let remaining = if length > 0 {
                (length - 1) as nat
            } else {
                0
            };
            let status = if remaining == 0 && phy is Some {
                Status::ANSWER
            } else {
                Status::RECEIVING
            };
            (
                ReceiverState {
                    recent_bin: w,
                    input_data: input2,
                    frame_length: remaining,
                    phy_frame: phy,
                    status,
                },
                if due {
                    RecordingView::HeaderRead(header)
                } else {
                    RecordingView::Idle
                },
            )
        },
        Status::ANSWER => {
            let input = s.input_data.push(bit);
            let d = parse_datalink(signed_as_bits(input))->Ok_0;
            (
                ReceiverState {
                    recent_bin: w,
                    input_data: Seq::empty(),
                    frame_length: 0,
                    phy_frame: None,
                    status: Status::LISTENING,
                },
                RecordingView::FrameRead(d, fcs_consistent(d)),
            )
        },
        _ => (ReceiverState { recent_bin: w, ..s }, RecordingView::Idle),
    }
}

/// The decision state of a recording in progress.
pub struct RecordingReceiver {
    recent_bin: [i8; 8],
    input_data: Vec<i8>,
    frame_length: usize,
    phy_frame: Option<Physical>,
    status: Status,
}

impl View for RecordingReceiver {
    type V = ReceiverState;

    closed spec fn view(&self) -> ReceiverState {
        ReceiverState {
            recent_bin: self.recent_bin@,
            input_data: self.input_data@,
            frame_length: self.frame_length as nat,
            phy_frame: self.phy_frame,
            status: self.status,
        }
    }
}

impl RecordingReceiver {
    /// A recording that listens for a frame.
    pub fn new() -> (r: Self)
        ensures
            r@ == initial_receiver(),
    {
        let r = RecordingReceiver {
            recent_bin: [-1; 8],
            input_data: Vec::new(),
            frame_length: 0,
            phy_frame: None,
            status: Status::LISTENING,
        };
        assert(r@.recent_bin =~= empty_window());
        r
    }

    /// The recorder's status.
    pub fn status(&self) -> (s: Status)
        ensures
            s == self@.status,
    {
        self.status
    }

    /// Whether `bit` would make the recorder stop with a panic.
    pub fn faults_on(&self, bit: i8) -> (r: bool)
        ensures
            r == recorder_faults(self@, bit),
    {
        let mut input = as_bits(&self.input_data);
        input.push(bit as u8);
        assert(input@ =~= signed_as_bits(self@.input_data.push(bit)));
        match self.status {
            Status::RECEIVING => {
                if self.input_data.len() == 35 && self.frame_length == 0
                    && self.phy_frame.is_none() {
                    assert(input@.take(4) =~= input@.subrange(0, 4));
                    !ModulationType::is_valid_bits(&input.as_slice()[0..4])
                } else {
                    false
                }
            },
            Status::ANSWER => {
                if input.len() < 68 {
                    true
                } else {
                    assert(input@.take(4) =~= input@.subrange(0, 4));
                    !crate::datalink::enums::FrameType::is_valid_bits(&input.as_slice()[0..4])
                }
            },
            _ => false,
        }
    }

    /// Takes one demodulated bit and reports what it made the recorder do.
    pub fn step(&mut self, bit: i8) -> (ev: Recording)
        requires
            !recorder_faults(old(self)@, bit),
        ensures
            (final(self)@, ev@) == recorder_step(old(self)@, bit),
    {
        let w = shift_window(&self.recent_bin, bit);
        self.recent_bin = w;
        match self.status {
            Status::LISTENING => {
                if is_delimiter(&w) {
                    self.status = Status::RECEIVING;
                    Recording::SfdDetected
                } else {
                    Recording::Idle
                }
            },
            Status::RECEIVING => {
                let ghost due = recorder_header_due(old(self)@);
                self.input_data.push(bit);
                let mut ev = Recording::Idle;
                if self.input_data.len() == 36 && self.frame_length == 0
                    && self.phy_frame.is_none() {
                    let mut frame_arr = [0u8; 36];
                    let mut i: usize = 0;
                    while i < 36
                        invariant
                            i <= 36,
                            self.input_data@.len() == 36,
                            forall|j: int|
                                0 <= j < i ==> #[trigger] frame_arr@[j] == self.input_data@[j] as u8,
                        decreases 36 - i,
                    {
                        frame_arr[i] = self.input_data[i] as u8;
                        i += 1;
                    }
                    assert(frame_arr@ =~= signed_as_bits(self.input_data@));
                    assert(frame_arr@.take(4) =~= signed_as_bits(self.input_data@).take(4));
                    let frame = match Physical::from_bytes(&frame_arr) {
                        Ok(f) => f,
                        Err(_) => {
                            proof {
                                assert(false);
                            }
                            Physical::new(0, ModulationType::BfskNoErrorCorrection)
                        },
                    };
                    self.frame_length = frame.length as usize;
                    self.phy_frame = Some(frame);
                    self.input_data.clear();
                    ev = Recording::HeaderRead(frame);
                } else {
                    assert(!due);
                }
                if self.frame_length > 0 {
                    self.frame_length = self.frame_length - 1;
                }
                if self.frame_length == 0 && self.phy_frame.is_some() {
                    self.status = Status::ANSWER;
                }
                assert(self@.input_data =~= recorder_step(old(self)@, bit).0.input_data);
                ev
            },
            Status::ANSWER => {
                self.input_data.push(bit);
                let frame = as_bits(&self.input_data);
                let ev = match Datalink::from_bytes(frame.as_slice()) {
                    Ok(p) => {
                        let ok = p.detect_checksum();
                        Recording::FrameRead { datalink: p, checksum_ok: ok }
                    },
                    Err(_) => {
                        proof {
                            assert(false);
                        }
                        Recording::Idle
                    },
                };
                self.phy_frame = None;
                self.input_data.clear();
                self.frame_length = 0;
                self.status = Status::LISTENING;
                ev
            },
            _ => Recording::Idle,
        }
    }
}

/// The recorder's state and reports after each of `bits` in turn.
pub open spec fn run_recorder(s: ReceiverState, bits: Seq<i8>) -> (ReceiverState, Seq<RecordingView>)
    decreases bits.len(),
{
    if bits.len() == 0 {
        (s, Seq::empty())
    } else {
        let before = run_recorder(s, bits.drop_last());
        let after = recorder_step(before.0, bits.last());
        (after.0, before.1.push(after.1))
    }
}

/// No bit of `bits` makes the recorder stop with a panic.
pub open spec fn records_without_fault(s: ReceiverState, bits: Seq<i8>) -> bool
    decreases bits.len(),
{
    if bits.len() == 0 {
        true
    } else {
        records_without_fault(s, bits.drop_last()) && !recorder_faults(
            run_recorder(s, bits.drop_last()).0,
            bits.last(),
        )
    }
}

proof fn lemma_record_step(s: ReceiverState, bits: Seq<i8>, n: int)
    requires
        0 <= n < bits.len(),
    ensures
        run_recorder(s, bits.take(n + 1)) == ({
            let before = run_recorder(s, bits.take(n));
            let after = recorder_step(before.0, bits[n]);
            (after.0, before.1.push(after.1))
        }),
        records_without_fault(s, bits.take(n + 1)) == (records_without_fault(s, bits.take(n))
            && !recorder_faults(run_recorder(s, bits.take(n)).0, bits[n])),
{
    assert(bits.take(n + 1).drop_last() == bits.take(n));
    assert(bits.take(n + 1).last() == bits[n]);
}

/// Once a frame is read the recorder keeps nothing of it: no bits, no
/// header, nothing announced, and it listens again.
pub proof fn lemma_frame_read_clears(s: ReceiverState, bit: i8)
    requires
        recorder_step(s, bit).1 is FrameRead,
    ensures
        recorder_step(s, bit).0.status == Status::LISTENING,
        recorder_step(s, bit).0.input_data.len() == 0,
        recorder_step(s, bit).0.phy_frame is None,
        recorder_step(s, bit).0.frame_length == 0,
{
}

/// While the receiver listens, or receives non-negative bits, the recorder
/// goes through the same states, and faults on the same bits.
proof fn lemma_record_follows_receive(bits: Seq<i8>, m: int)
    requires
        0 <= m <= bits.len(),
        forall|k: int|
            0 <= k < m ==> {
                let st = #[trigger] run_receiver(initial_receiver(), bits.take(k)).0.status;
                st == Status::LISTENING || (st == Status::RECEIVING && bits[k] >= 0)
            },
    ensures
        run_recorder(initial_receiver(), bits.take(m)).0 == run_receiver(
            initial_receiver(),
            bits.take(m),
        ).0,
        records_without_fault(initial_receiver(), bits.take(m)) == runs_without_fault(
            initial_receiver(),
            bits.take(m),
        ),
    decreases m,
{
    if m == 0 {
        assert(bits.take(0) =~= Seq::<i8>::empty());
    } else {
        lemma_record_follows_receive(bits, m - 1);
        lemma_record_step(initial_receiver(), bits, m - 1);
        lemma_run_step(initial_receiver(), bits, m - 1);
        let st = run_receiver(initial_receiver(), bits.take(m - 1)).0.status;
        assert(st == Status::LISTENING || (st == Status::RECEIVING && bits[m - 1] >= 0));
    }
}

/// A recording that starts listening and is given, bit by bit, preamble and
/// start frame delimiter, then any 36 header bits of a known modulation type
/// that announce `f.len()` bits, then any `f.len() >= 68` bits of a known
/// frame type, reads without a panic, reports last the data link frame read
/// from `f`, with whether its check sequence matched, and listens again.
pub proof fn lemma_records_frame_bits(h: Seq<u8>, f: Seq<u8>)
    requires
        readable_frame(h, f),
    ensures
        ({
            let bits = frame_signal(h, f);
            let d = parse_datalink(f)->Ok_0;
            &&& parse_datalink(f) is Ok
            &&& records_without_fault(initial_receiver(), bits)
            &&& run_recorder(initial_receiver(), bits).1.last() == RecordingView::FrameRead(
                d,
                fcs_consistent(d),
            )
            &&& run_recorder(initial_receiver(), bits).0.status == Status::LISTENING
        }),
{
    let bits = frame_signal(h, f);
    let n: int = f.len() as int;
    lemma_frame_phases(h, f);
    lemma_record_follows_receive(bits, 52 + n - 1);
    lemma_record_step(initial_receiver(), bits, 52 + n - 1);
    assert(bits.subrange(52, 52 + n - 1).push(bits[52 + n - 1]) =~= bits.subrange(52, 52 + n));
    crate::datalink::frame::lemma_datalink_roundtrip(parse_datalink(f)->Ok_0);
    assert(bits.take(52 + n) == bits);
}

/// A recording that starts listening and is given, bit by bit, the bits of
/// a protocol frame as sent, reads them without a panic, reports last the
/// frame's data link part with a matching check sequence, and listens again.
pub proof fn lemma_records_sent_frame(p: crate::modem::protocol::ProtocolView)
    requires
        receivable(p),
    ensures
        records_without_fault(
            initial_receiver(),
            as_signed(crate::modem::protocol::protocol_bits(p)),
        ),
        run_recorder(initial_receiver(), as_signed(crate::modem::protocol::protocol_bits(p))).1.last()
            == RecordingView::FrameRead(p.datalink, true),
        run_recorder(
            initial_receiver(),
            as_signed(crate::modem::protocol::protocol_bits(p)),
        ).0.status == Status::LISTENING,
{
    lemma_sent_frame_readable(p);
    let h = crate::physical::frame::physical_bits(p.physical).subrange(16, 52);
    let f = crate::datalink::frame::frame_bits(p.datalink);
    lemma_records_frame_bits(h, f);
}


proof fn lemma_record_append(s: ReceiverState, a: Seq<i8>, b: Seq<i8>)
    ensures
        run_recorder(s, a + b).0 == run_recorder(run_recorder(s, a).0, b).0,
        run_recorder(s, a + b).1 == run_recorder(s, a).1 + run_recorder(
            run_recorder(s, a).0,
            b,
        ).1,
        records_without_fault(s, a + b) == (records_without_fault(s, a) && records_without_fault(
            run_recorder(s, a).0,
            b,
        )),
    decreases b.len(),
{
    if b.len() == 0 {
        assert(a + b =~= a);
        assert(run_recorder(s, a).1 + Seq::<RecordingView>::empty() =~= run_recorder(s, a).1);
    } else {
        lemma_record_append(s, a, b.drop_last());
        assert((a + b).drop_last() =~= a + b.drop_last());
        assert((a + b).last() == b.last());
        let mid = run_recorder(s, a).0;
        let e1 = run_recorder(s, a).1;
        let e2 = run_recorder(mid, b.drop_last()).1;
        let ev = recorder_step(run_recorder(mid, b.drop_last()).0, b.last()).1;
        assert((e1 + e2).push(ev) =~= e1 + e2.push(ev));
    }
}

proof fn lemma_record_len(s: ReceiverState, a: Seq<i8>)
    ensures
        run_recorder(s, a).1.len() == a.len(),
    decreases a.len(),
{
    if a.len() > 0 {
        lemma_record_len(s, a.drop_last());
    }
}

/// The recorder's window is always the last eight bits heard, after the
/// empty window it starts with.
proof fn lemma_record_window(x: Seq<i8>)
    ensures
        run_recorder(initial_receiver(), x).0.recent_bin == (empty_window() + x).subrange(
            x.len() as int,
            x.len() + 8 as int,
        ),
    decreases x.len(),
{
    if x.len() == 0 {
        assert((empty_window() + x).subrange(0, 8) =~= empty_window());
    } else {
        let y = x.drop_last();
        lemma_record_window(y);
        let w = (empty_window() + y).subrange(y.len() as int, y.len() + 8 as int);
        assert(shift_in(w, x.last()) =~= (empty_window() + x).subrange(
            x.len() as int,
            x.len() + 8 as int,
        ));
    }
}

/// The first sixteen bits `b` of a frame, heard by a recorder that listens
/// with window `w`, complete the start frame delimiter only with the last:
/// no earlier window is the delimiter, unless `w` ends in 0, 0, 0, 1, 0, 1.
proof fn lemma_junction_windows(w: Seq<i8>, b: Seq<i8>, j: int)
    requires
        w.len() == 8,
        w.subrange(2, 8) != seq![0i8, 0i8, 0i8, 1i8, 0i8, 1i8],
        b.len() >= 16,
        forall|i: int| 0 <= i < 16 ==> #[trigger] b[i] == lead_in()[i + 8],
        1 <= j <= 15,
    ensures
        (w + b).subrange(j, j + 8) != ISFD@,
{
    let v = (w + b).subrange(j, j + 8);
    let d = ISFD@;
    assert(d =~= seq![0i8, 0i8, 0i8, 1i8, 0i8, 1i8, 1i8, 0i8]);
    assert forall|t: int| 0 <= t < 8 && j + t >= 8 implies #[trigger] v[t] == lead_in()[j + t] by {
        assert(v[t] == b[j + t - 8]);
    }
    if j == 1 {
        assert(v[7] != d[7]);
    } else if j == 2 {
        if v == d {
            assert(w.subrange(2, 8) =~= seq![0i8, 0i8, 0i8, 1i8, 0i8, 1i8]) by {
                assert forall|t: int| 0 <= t < 6 implies w.subrange(2, 8)[t] == d[t] by {
                    assert(v[t] == w[2 + t]);
                }
            }
        }
    } else if j == 3 {
        assert(v[6] != d[6]);
    } else if j == 4 {
        assert(v[4] != d[4]);
    } else if j == 5 {
        assert(v[6] != d[6]);
    } else if j == 6 {
        assert(v[2] != d[2]);
    } else if j == 7 {
        assert(v[1] != d[1]);
    } else {
        let m = mismatch_at(j);
        assert(v[m] != d[m]);
    }
}

/// A recorder that listens with window `w`, having kept nothing of an
/// earlier frame, hears the first `k` bits of a frame's lead-in.
proof fn lemma_record_junction(r: ReceiverState, b: Seq<i8>, k: int)
    requires
        r.status == Status::LISTENING,
        r.input_data.len() == 0,
        r.phy_frame is None,
        r.frame_length == 0,
        r.recent_bin.len() == 8,
        r.recent_bin.subrange(2, 8) != seq![0i8, 0i8, 0i8, 1i8, 0i8, 1i8],
        b.len() >= 16,
        forall|i: int| 0 <= i < 16 ==> #[trigger] b[i] == lead_in()[i + 8],
        0 <= k <= 15,
    ensures
        records_without_fault(r, b.take(k)),
        run_recorder(r, b.take(k)).0 == (ReceiverState {
            recent_bin: (r.recent_bin + b).subrange(k, k + 8),
            ..r
        }),
    decreases k,
{
    if k == 0 {
        assert(b.take(0) =~= Seq::<i8>::empty());
        assert((r.recent_bin + b).subrange(0, 8) =~= r.recent_bin);
    } else {
        lemma_record_junction(r, b, k - 1);
        lemma_record_step(r, b, k - 1);
        let w = (r.recent_bin + b).subrange(k - 1, k + 7);
        assert(shift_in(w, b[k - 1]) =~= (r.recent_bin + b).subrange(k, k + 8));
        lemma_junction_windows(r.recent_bin, b, k);
    }
}

/// A recording given two readable frames one after the other, as sent,
/// reports each frame's data link part, with whether its check sequence
/// matched: the first with the first frame's last bit, the second with the
/// last bit; it reads both without a panic and listens again.  The first
/// frame must not end in 0, 0, 0, 1, 0, 1: the recorder keeps its last bits
/// in its window, and those with the next frame's first two bits would
/// form the start frame delimiter.
#[verifier::spinoff_prover]
#[verifier::rlimit(30)]
pub proof fn lemma_records_frames_in_turn(h1: Seq<u8>, f1: Seq<u8>, h2: Seq<u8>, f2: Seq<u8>)
    requires
        readable_frame(h1, f1),
        readable_frame(h2, f2),
        frame_signal(h1, f1).subrange(
            frame_signal(h1, f1).len() - 6,
            frame_signal(h1, f1).len() as int,
        ) != seq![0i8, 0i8, 0i8, 1i8, 0i8, 1i8],
    ensures
        ({
            let a = frame_signal(h1, f1);
            let b = frame_signal(h2, f2);
            let r = run_recorder(initial_receiver(), a + b);
            let d1 = parse_datalink(f1)->Ok_0;
            let d2 = parse_datalink(f2)->Ok_0;
            &&& records_without_fault(initial_receiver(), a + b)
            &&& r.1.len() == a.len() + b.len()
            &&& r.1[a.len() - 1] == RecordingView::FrameRead(d1, fcs_consistent(d1))
            &&& r.1.last() == RecordingView::FrameRead(d2, fcs_consistent(d2))
            &&& r.0.status == Status::LISTENING
        }),
{
    let init = initial_receiver();
    let a = frame_signal(h1, f1);
    let b = frame_signal(h2, f2);
    lemma_records_frame_bits(h1, f1);
    lemma_records_frame_bits(h2, f2);
    lemma_frame_phases(h1, f1);
    lemma_frame_phases(h2, f2);
    let ra = run_recorder(init, a).0;
    let ea = run_recorder(init, a).1;
    lemma_record_append(init, a, b);
    lemma_record_len(init, a);
    lemma_record_len(ra, b);
    assert(run_recorder(init, a + b).1[a.len() - 1] == ea[a.len() - 1]);
    assert(ea[a.len() - 1] == ea.last());
    // The state that the first frame leaves: nothing kept, its last bits in
    // the window.
    let n = a.len() - 1;
    lemma_record_step(init, a, n);
    assert(a.take(n + 1) == a);
    lemma_frame_read_clears(run_recorder(init, a.take(n)).0, a[n]);
    lemma_record_window(a);
    assert((empty_window() + a).subrange(a.len() as int, a.len() + 8 as int) =~= a.subrange(n - 7, n + 1));
    assert(ra.recent_bin.subrange(2, 8) =~= a.subrange(a.len() - 6, a.len() as int));
    // The second frame's lead-in: the delimiter completes with its last bit,
    // from that state as from the start.
    lemma_lead_in_of_signal(h2, f2);
    lemma_record_hears_delimiter(ra, b);
    lemma_record_hears_delimiter(init, b);
    let rest = b.subrange(16, b.len() as int);
    assert(b.take(16) + rest =~= b);
    lemma_record_append(ra, b.take(16), rest);
    lemma_record_append(init, b.take(16), rest);
    let mid = run_recorder(init, b.take(16)).0;
    assert(run_recorder(ra, b.take(16)).0 == mid);
    lemma_record_len(mid, rest);
    let eb = run_recorder(ra, b).1;
    let er = run_recorder(mid, rest).1;
    assert(eb.last() == er.last());
    assert(run_recorder(init, b).1.last() == er.last());
    assert(run_recorder(init, a + b).1.last() == eb.last());
}

/// A recorder that listens with nothing kept hears a frame's lead-in and
/// recognises the start frame delimiter with its last bit.
proof fn lemma_record_hears_delimiter(r: ReceiverState, b: Seq<i8>)
    requires
        r.status == Status::LISTENING,
        r.input_data.len() == 0,
        r.phy_frame is None,
        r.frame_length == 0,
        r.recent_bin.len() == 8,
        r.recent_bin.subrange(2, 8) != seq![0i8, 0i8, 0i8, 1i8, 0i8, 1i8],
        b.len() >= 16,
        forall|i: int| 0 <= i < 16 ==> #[trigger] b[i] == lead_in()[i + 8],
    ensures
        records_without_fault(r, b.take(16)),
        run_recorder(r, b.take(16)).0 == (ReceiverState {
            recent_bin: ISFD@,
            input_data: Seq::empty(),
            frame_length: 0,
            phy_frame: None,
            status: Status::RECEIVING,
        }),
{
    lemma_record_junction(r, b, 15);
    lemma_record_step(r, b, 15);
    let w = (r.recent_bin + b).subrange(15, 23);
    assert(shift_in(w, b[15]) =~= ISFD@) by {
        assert forall|t: int| 0 <= t < 8 implies shift_in(w, b[15])[t] == ISFD@[t] by {
            assert(shift_in(w, b[15])[t] == b[8 + t]);
            assert(b[8 + t] == lead_in()[16 + t]);
        }
    }
    assert(r.input_data =~= Seq::<i8>::empty());
}


/// A recording given two protocol frames as sent, one after the other,
/// reports each frame's data link part with a matching check sequence: the
/// first with the first frame's last bit, the second with the last bit.
/// The first frame must not end in 0, 0, 0, 1, 0, 1 (see
/// `lemma_records_frames_in_turn`).
pub proof fn lemma_records_sent_frames_in_turn(
    p: crate::modem::protocol::ProtocolView,
    q: crate::modem::protocol::ProtocolView,
)
    requires
        receivable(p),
        receivable(q),
        ({
            let a = as_signed(crate::modem::protocol::protocol_bits(p));
            a.subrange(a.len() - 6, a.len() as int) != seq![0i8, 0i8, 0i8, 1i8, 0i8, 1i8]
        }),
    ensures
        ({
            let a = as_signed(crate::modem::protocol::protocol_bits(p));
            let b = as_signed(crate::modem::protocol::protocol_bits(q));
            let r = run_recorder(initial_receiver(), a + b);
            &&& records_without_fault(initial_receiver(), a + b)
            &&& r.1.len() == a.len() + b.len()
            &&& r.1[a.len() - 1] == RecordingView::FrameRead(p.datalink, true)
            &&& r.1.last() == RecordingView::FrameRead(q.datalink, true)
        }),
{
    lemma_sent_frame_readable(p);
    lemma_sent_frame_readable(q);
    lemma_records_frames_in_turn(
        crate::physical::frame::physical_bits(p.physical).subrange(16, 52),
        crate::datalink::frame::frame_bits(p.datalink),
        crate::physical::frame::physical_bits(q.physical).subrange(16, 52),
        crate::datalink::frame::frame_bits(q.datalink),
    );
}

} // verus!
