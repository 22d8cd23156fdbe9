//! The decisions of the modem's receiver, one demodulated bit at a time.
//!
//! The receiver listens until the last eight bits are the start frame
//! delimiter, reads the 36 bits of the physical header that follow, then as
//! many bits as the header's length announces, and reads them as a data link
//! frame.  A negative bit (no tone recognised) while receiving aborts the
//! frame.  After a frame, or an aborted one, it resets and listens again.
use vstd::prelude::*;

use crate::datalink::frame::{
    datalink_parsable, datalink_result_view, fcs_consistent, parse_datalink, Datalink,
    DatalinkView,
};
use crate::error::Error;
use crate::modem::protocol::signed_as_bits;
use crate::physical::frame::{is_modulation_bits, physical_from, ModulationType, Physical};
use crate::{Status, ISFD};

verus! {

/// The receiver's state: the last eight bits, the bits of the part being
/// read, the bits still announced, the header once read, and the status.
pub struct FrameReceiver {
    recent_bin: [i8; 8],
    input_data: Vec<i8>,
    frame_length: usize,
    phy_frame: Option<Physical>,
    status: Status,
}

/// The receiver's state as values.
#[verifier::ext_equal]
pub struct ReceiverState {
    pub recent_bin: Seq<i8>,
    pub input_data: Seq<i8>,
    pub frame_length: nat,
    pub phy_frame: Option<Physical>,
    pub status: Status,
}

impl View for FrameReceiver {
    type V = ReceiverState;

    closed spec fn view(&self) -> ReceiverState {
        ReceiverState {
            recent_bin: self.recent_bin@,
            input_data: self.input_data@,
            frame_length: self.frame_length as nat,
            phy_frame: self.phy_frame,
            status: self.status,
        }
    }
}

/// What one bit made the receiver do.
pub enum Reception {
    /// Nothing to report.
    Idle,
    /// The start frame delimiter was recognised.
    SfdReceived,
    /// A negative bit ended the frame being received; the last eight bits.
    Aborted([i8; 8]),
    /// The physical header was read.
    HeaderReceived(Physical),
    /// The announced bits could not be read as a data link frame.
    FrameError(Error),
    /// A data link frame was read; whether its check sequence matched.
    FrameReceived { datalink: Datalink, checksum_ok: bool },
}

/// What one bit made the receiver do, as values.
#[verifier::ext_equal]
pub enum ReceptionView {
    Idle,
    SfdReceived,
    Aborted(Seq<i8>),
    HeaderReceived(Physical),
    FrameError(Error),
    FrameReceived(DatalinkView, bool),
}

impl View for Reception {
    type V = ReceptionView;

    open spec fn view(&self) -> ReceptionView {
        match self {
            Reception::Idle => ReceptionView::Idle,
            Reception::SfdReceived => ReceptionView::SfdReceived,
            Reception::Aborted(w) => ReceptionView::Aborted(w@),
            Reception::HeaderReceived(h) => ReceptionView::HeaderReceived(*h),
            Reception::FrameError(e) => ReceptionView::FrameError(*e),
            Reception::FrameReceived { datalink, checksum_ok } => ReceptionView::FrameReceived(
                datalink@,
                *checksum_ok,
            ),
        }
    }
}

impl Reception {
    /// The data link frame to pass on to the link's user: a received frame
    /// of type data, whatever its check sequence; none for any other report.
    pub fn forwarded(&self) -> (r: Option<&Datalink>)
        ensures
            match r {
                Some(d) => self@ == ReceptionView::FrameReceived(d@, self@->FrameReceived_1)
                    && d@.frame_type is Data,
                None => !(self@ matches ReceptionView::FrameReceived(v, _) && v.frame_type is Data),
            },
    {
        match self {
            Reception::FrameReceived { datalink, checksum_ok: _ } => {
                if datalink.frame_type().is_data() {
                    Some(datalink)
                } else {
                    None
                }
            },
            _ => None,
        }
    }
}

/// Eight bits that match no delimiter.
pub open spec fn empty_window() -> Seq<i8> {
    Seq::new(8, |i: int| -1i8)
}

/// The state in which the receiver starts, and to which it resets.
pub open spec fn initial_receiver() -> ReceiverState {
    ReceiverState {
        recent_bin: empty_window(),
        input_data: Seq::empty(),
        frame_length: 0,
        phy_frame: None,
        status: Status::LISTENING,
    }
}

/// The last eight bits after `bit` arrives.
pub open spec fn shift_in(w: Seq<i8>, bit: i8) -> Seq<i8> {
    w.push(bit).drop_first()
}

/// The step at which the receiver reads the physical header.
pub open spec fn header_due(s: ReceiverState, bit: i8) -> bool {
    &&& s.status == Status::RECEIVING
    &&& bit >= 0
    &&& s.input_data.len() + 1 == 36
    &&& s.frame_length == 0
    &&& s.phy_frame is None
}

/// The bit would make the receiver read a header whose modulation type is
/// unknown, or a frame whose type is unknown (or whose data range is
/// empty): the points at which it stops with a panic.
pub open spec fn receiver_faults(s: ReceiverState, bit: i8) -> bool {
    ||| header_due(s, bit) && !is_modulation_bits(
        signed_as_bits(s.input_data.push(bit)).take(4),
    )
    ||| s.status == Status::ANSWER && !datalink_parsable(signed_as_bits(s.input_data.push(bit)))
}

/// The receiver's state and report after one more bit.
pub open spec fn receiver_step(s: ReceiverState, bit: i8) -> (ReceiverState, ReceptionView) {
    let w = shift_in(s.recent_bin, bit);
    match s.status {
        Status::LISTENING => {
            if w == ISFD@ {
                (
                    ReceiverState { recent_bin: w, status: Status::RECEIVING, ..s },
                    ReceptionView::SfdReceived,
                )
            } else {
                (ReceiverState { recent_bin: w, ..s }, ReceptionView::Idle)
            }
        },
        Status::RECEIVING => {
            let input = s.input_data.push(bit);
            if bit < 0 {
                (
                    ReceiverState {
                        recent_bin: w,
                        input_data: Seq::empty(),
                        frame_length: 0,
                        phy_frame: None,
                        status: Status::RESET,
                    },
                    ReceptionView::Aborted(w),
                )
            } else {
                let header = physical_from(signed_as_bits(input));
                let due = header_due(s, bit);
                let input2 = if due {
                    Seq::<i8>::empty()
                } else {
                    input
                };
                let length = if due {
                    header.length as nat
                } else {
                    s.frame_length
                };
                let phy = if due {
                    Some(header)
                } else {
                    s.phy_frame
                };
                let remaining = if length > 0 {
                    (length - 1) as nat
                } else {
                    0
                };
                let status = if remaining == 0 && phy is Some {
                    Status::ANSWER
                } else {
                    Status::RECEIVING
                };
                (
                    ReceiverState {
                        recent_bin: w,
                        input_data: input2,
                        frame_length: remaining,
                        phy_frame: phy,
                        status,
                    },
                    if due {
                        ReceptionView::HeaderReceived(header)
                    } else {
                        ReceptionView::Idle
                    },
                )
            }
        },
        Status::ANSWER => {
            let input = s.input_data.push(bit);
            let next = ReceiverState {
                recent_bin: w,
                input_data: input,
                status: Status::RESET,
                ..s
            };
            match parse_datalink(signed_as_bits(input)) {
                Err(e) => (next, ReceptionView::FrameError(e)),
                Ok(d) => (next, ReceptionView::FrameReceived(d, fcs_consistent(d))),
            }
        },
        Status::RESET => (initial_receiver(), ReceptionView::Idle),
        Status::TRANSMITTING => (ReceiverState { recent_bin: w, ..s }, ReceptionView::Idle),
    }
}

/// The last eight bits with `bit` shifted in.
pub(crate) fn shift_window(w: &[i8; 8], bit: i8) -> (r: [i8; 8])
    ensures
        r@ == shift_in(w@, bit),
{
    let r: [i8; 8] = [w[1], w[2], w[3], w[4], w[5], w[6], w[7], bit];
    assert(r@ =~= shift_in(w@, bit));
    r
}

/// Whether the last eight bits are the start frame delimiter.
pub(crate) fn is_delimiter(w: &[i8; 8]) -> (r: bool)
    ensures
        r == (w@ == ISFD@),
{
    let d = ISFD;
    let mut i: usize = 0;
    while i < 8
        invariant
            i <= 8,
            d@ == ISFD@,
            forall|j: int| 0 <= j < i ==> w@[j] == d@[j],
        decreases 8 - i,
    {
        if w[i] != d[i] {
            return false;
        }
        i += 1;
    }
    assert(w@ =~= ISFD@);
    true
}

/// The received values cast to `u8`.
pub(crate) fn as_bits(v: &Vec<i8>) -> (r: Vec<u8>)
    ensures
        r@ == signed_as_bits(v@),
{
    let mut r: Vec<u8> = Vec::new();
    let mut i: usize = 0;
    while i < v.len()
        invariant
            i <= v@.len(),
            r@ == signed_as_bits(v@).take(i as int),
        decreases v@.len() - i,
    {
        r.push(v[i] as u8);
        assert(r@ =~= signed_as_bits(v@).take(i + 1));
        i += 1;
    }
    assert(r@ =~= signed_as_bits(v@));
    r
}

impl FrameReceiver {
    /// A receiver that listens.
    pub fn new() -> (r: Self)
        ensures
            r@ == initial_receiver(),
    {
        let r = FrameReceiver {
            recent_bin: [-1; 8],
            input_data: Vec::new(),
            frame_length: 0,
            phy_frame: None,
            status: Status::LISTENING,
        };
        assert(r@.recent_bin =~= empty_window());
        r
    }

    /// The receiver's status.
    pub fn status(&self) -> (s: Status)
        ensures
            s == self@.status,
    {
        self.status
    }

    /// Whether `bit` would make the receiver stop with a panic.
    pub fn faults_on(&self, bit: i8) -> (r: bool)
        ensures
            r == receiver_faults(self@, bit),
    {
        match self.status {
            Status::RECEIVING => {
                if bit >= 0 && self.input_data.len() == 35 && self.frame_length == 0
                    && self.phy_frame.is_none() {
                    let mut head: Vec<u8> = Vec::new();
                    let mut i: usize = 0;
                    while i < 4
                        invariant
                            i <= 4,
                            self.input_data@.len() == 35,
                            head@ == signed_as_bits(self.input_data@.push(bit)).take(i as int),
                        decreases 4 - i,
                    {
                        head.push(self.input_data[i] as u8);
                        assert(head@ =~= signed_as_bits(self.input_data@.push(bit)).take(i + 1));
                        i += 1;
                    }
                    !ModulationType::is_valid_bits(head.as_slice())
                } else {
                    false
                }
            },
            Status::ANSWER => {
                let mut input = as_bits(&self.input_data);
                input.push(bit as u8);
                assert(input@ =~= signed_as_bits(self.input_data@.push(bit)));
                if input.len() < 52 {
                    false
                } else if input.len() < 68 {
                    true
                } else {
                    assert(input@.take(4) =~= input@.subrange(0, 4));
                    !crate::datalink::enums::FrameType::is_valid_bits(&input.as_slice()[0..4])
                }
            },
            _ => false,
        }
    }

    /// Takes one demodulated bit (negative when no tone was recognised) and
    /// reports what it made the receiver do.
    pub fn step(&mut self, bit: i8) -> (ev: Reception)
        requires
            !receiver_faults(old(self)@, bit),
        ensures
            (final(self)@, ev@) == receiver_step(old(self)@, bit),
    {
        let w = shift_window(&self.recent_bin, bit);
        match self.status {
            Status::LISTENING => {
                self.recent_bin = w;
                if is_delimiter(&w) {
                    self.status = Status::RECEIVING;
                    Reception::SfdReceived
                } else {
                    Reception::Idle
                }
            },
            Status::RECEIVING => {
                self.recent_bin = w;
                let ghost due = header_due(old(self)@, bit);
                self.input_data.push(bit);
                let mut ev = Reception::Idle;
                if bit < 0 {
                    self.phy_frame = None;
                    self.input_data.clear();
                    self.frame_length = 0;
                    self.status = Status::RESET;
                    ev = Reception::Aborted(w);
                }
                if self.input_data.len() == 36 && self.frame_length == 0
                    && self.phy_frame.is_none() {
                    assert(due);
                    let mut frame_arr = [0u8; 36];
                    let mut i: usize = 0;
                    while i < 36
                        invariant
                            i <= 36,
                            self.input_data@.len() == 36,
                            forall|j: int|
                                0 <= j < i ==> #[trigger] frame_arr@[j] == self.input_data@[j] as u8,
                        decreases 36 - i,
                    {
                        frame_arr[i] = self.input_data[i] as u8;
                        i += 1;
                    }
                    assert(frame_arr@ =~= signed_as_bits(self.input_data@));
                    assert(frame_arr@.take(4) =~= signed_as_bits(self.input_data@).take(4));
                    let frame = match Physical::from_bytes(&frame_arr) {
                        Ok(f) => f,
                        Err(_) => {
                            proof {
                                assert(false);
                            }
                            Physical::new(0, ModulationType::BfskNoErrorCorrection)
                        },
                    };
                    self.frame_length = frame.length as usize;
                    self.phy_frame = Some(frame);
                    self.input_data.clear();
                    ev = Reception::HeaderReceived(frame);
                } else {
                    assert(!due);
                }
                if self.frame_length > 0 {
                    self.frame_length = self.frame_length - 1;
                }
                if self.frame_length == 0 && self.phy_frame.is_some() {
                    self.status = Status::ANSWER;
                }
                assert(self@.input_data =~= receiver_step(old(self)@, bit).0.input_data);
                ev
            },
            Status::ANSWER => {
                self.recent_bin = w;
                self.input_data.push(bit);
                let frame = as_bits(&self.input_data);
                self.status = Status::RESET;
                match Datalink::from_bytes(frame.as_slice()) {
                    Err(e) => Reception::FrameError(e),
                    Ok(p) => {
                        let ok = p.detect_checksum();
                        Reception::FrameReceived { datalink: p, checksum_ok: ok }
                    },
                }
            },
            Status::RESET => {
                self.phy_frame = None;
                self.input_data.clear();
                self.frame_length = 0;
                self.recent_bin = [-1; 8];
                self.status = Status::LISTENING;
                assert(self@.recent_bin =~= empty_window());
                Reception::Idle
            },
            Status::TRANSMITTING => {
                self.recent_bin = w;
                Reception::Idle
            },
        }
    }
}


/// The receiver's state and reports after each of `bits` in turn.
pub open spec fn run_receiver(s: ReceiverState, bits: Seq<i8>) -> (ReceiverState, Seq<ReceptionView>)
    decreases bits.len(),
{
    if bits.len() == 0 {
        (s, Seq::empty())
    } else {
        let before = run_receiver(s, bits.drop_last());
        let after = receiver_step(before.0, bits.last());
        (after.0, before.1.push(after.1))
    }
}

/// No bit of `bits` makes the receiver stop with a panic.
pub open spec fn runs_without_fault(s: ReceiverState, bits: Seq<i8>) -> bool
    decreases bits.len(),
{
    if bits.len() == 0 {
        true
    } else {
        runs_without_fault(s, bits.drop_last()) && !receiver_faults(
            run_receiver(s, bits.drop_last()).0,
            bits.last(),
        )
    }
}

/// Bit values as the demodulator reports them: each cast to `i8`.
pub open spec fn as_signed(b: Seq<u8>) -> Seq<i8> {
    Seq::new(b.len(), |i: int| b[i] as i8)
}

/// The empty window followed by preamble and start frame delimiter.
pub(crate) open spec fn lead_in() -> Seq<i8> {
    seq![-1i8, -1i8, -1i8, -1i8, -1i8, -1i8, -1i8, -1i8, 1i8, 0i8, 1i8, 0i8, 1i8, 0i8, 1i8, 0i8,
        0i8, 0i8, 0i8, 1i8, 0i8, 1i8, 1i8, 0i8]
}

/// A position at which the window after `n` bits of the lead-in differs
/// from the start frame delimiter.
pub(crate) open spec fn mismatch_at(n: int) -> int {
    if n <= 8 {
        0
    } else if n == 15 {
        3
    } else if n % 2 == 1 {
        1
    } else {
        0
    }
}

pub(crate) proof fn lemma_run_step(s: ReceiverState, bits: Seq<i8>, n: int)
    requires
        0 <= n < bits.len(),
    ensures
        run_receiver(s, bits.take(n + 1)) == ({
            let before = run_receiver(s, bits.take(n));
            let after = receiver_step(before.0, bits[n]);
            (after.0, before.1.push(after.1))
        }),
        runs_without_fault(s, bits.take(n + 1)) == (runs_without_fault(s, bits.take(n))
            && !receiver_faults(run_receiver(s, bits.take(n)).0, bits[n])),
{
    assert(bits.take(n + 1).drop_last() == bits.take(n));
    assert(bits.take(n + 1).last() == bits[n]);
}

/// The sent bits of a protocol frame are all 0 or 1.
pub(crate) proof fn lemma_protocol_bits_are_bits(p: crate::modem::protocol::ProtocolView)
    requires
        crate::bytes::all_bits(p.datalink.data),
    ensures
        crate::bytes::all_bits(crate::modem::protocol::protocol_bits(p)),
{
    let b = crate::modem::protocol::protocol_bits(p);
    let d = p.datalink;
    let crc16 = crate::physical::frame::crc16_ibm_sdlc(
        crate::physical::frame::physical_fields(p.physical.mod_type, p.physical.length),
    );
    let crc32 = crate::datalink::frame::crc32_mpeg2(crate::datalink::frame::body_bits(d));
    lemma_u16_bits_small(p.physical.length);
    lemma_u16_bits_small(crc16);
    lemma_u16_bits_small(d.sequence_number);
    lemma_u8_bits_small(d.destination_address);
    lemma_u8_bits_small(d.source_address);
    lemma_u32_bits_small(crc32);
    assert forall|i: int| 0 <= i < b.len() implies #[trigger] b[i] <= 1 by {
        if i < 52 {
            assert(b[i] == crate::physical::frame::physical_bits(p.physical)[i]);
        } else {
            let f = crate::datalink::frame::frame_bits(d);
            assert(b[i] == f[i - 52]);
        }
    }
}

proof fn lemma_u8_bits_small(n: u8)
    ensures
        crate::bytes::all_bits(crate::bytes::u8_bits(n)),
{
    assert forall|i: int| 0 <= i < 8 implies #[trigger] crate::bytes::u8_bits(n)[i] <= 1 by {
        let v = n >> (i as u8);
        assert(v & 1u8 <= 1) by (bit_vector);
    }
}

proof fn lemma_u16_bits_small(n: u16)
    ensures
        crate::bytes::all_bits(crate::bytes::u16_bits(n)),
{
    assert forall|i: int| 0 <= i < 16 implies #[trigger] crate::bytes::u16_bits(n)[i] <= 1 by {
        let v = n >> (i as u16);
        assert(((v & 1u16) as u8) <= 1) by (bit_vector);
    }
}

proof fn lemma_u32_bits_small(n: u32)
    ensures
        crate::bytes::all_bits(crate::bytes::u32_bits(n)),
{
    assert forall|i: int| 0 <= i < 32 implies #[trigger] crate::bytes::u32_bits(n)[i] <= 1 by {
        let v = n >> (i as u32);
        assert(((v & 1u32) as u8) <= 1) by (bit_vector);
    }
}

/// Bits cast to `i8` and back are unchanged.
pub(crate) proof fn lemma_signed_roundtrip(b: Seq<u8>)
    requires
        crate::bytes::all_bits(b),
    ensures
        signed_as_bits(as_signed(b)) == b,
        forall|i: int| 0 <= i < b.len() ==> #[trigger] as_signed(b)[i] >= 0,
{
    assert(signed_as_bits(as_signed(b)) =~= b);
}

proof fn lemma_listening(bits: Seq<i8>, k: int)
    requires
        bits.len() >= 16,
        forall|i: int| 0 <= i < 16 ==> #[trigger] bits[i] == lead_in()[i + 8],
        0 <= k <= 15,
    ensures
        runs_without_fault(initial_receiver(), bits.take(k)),
        run_receiver(initial_receiver(), bits.take(k)).0 == (ReceiverState {
            recent_bin: lead_in().subrange(k, k + 8),
            ..initial_receiver()
        }),
    decreases k,
{
    let init = initial_receiver();
    if k == 0 {
        assert(bits.take(0) =~= Seq::<i8>::empty());
        assert(lead_in().subrange(0, 8) =~= empty_window());
    } else {
        lemma_listening(bits, k - 1);
        lemma_run_step(init, bits, k - 1);
        let w = shift_in(lead_in().subrange(k - 1, k + 7), bits[k - 1]);
        assert(w =~= lead_in().subrange(k, k + 8));
        let m = mismatch_at(k);
        assert(w[m] != ISFD@[m]);
    }
}

proof fn lemma_header(bits: Seq<i8>, j: int)
    requires
        bits.len() >= 52,
        forall|i: int| 0 <= i < bits.len() ==> #[trigger] bits[i] >= 0,
        runs_without_fault(initial_receiver(), bits.take(16)),
        run_receiver(initial_receiver(), bits.take(16)).0.status == Status::RECEIVING,
        run_receiver(initial_receiver(), bits.take(16)).0.input_data == bits.subrange(16, 16),
        run_receiver(initial_receiver(), bits.take(16)).0.frame_length == 0,
        run_receiver(initial_receiver(), bits.take(16)).0.phy_frame is None,
        0 <= j <= 35,
    ensures
        runs_without_fault(initial_receiver(), bits.take(16 + j)),
        run_receiver(initial_receiver(), bits.take(16 + j)).0.status == Status::RECEIVING,
        run_receiver(initial_receiver(), bits.take(16 + j)).0.input_data == bits.subrange(16, 16 + j),
        run_receiver(initial_receiver(), bits.take(16 + j)).0.frame_length == 0,
        run_receiver(initial_receiver(), bits.take(16 + j)).0.phy_frame is None,
    decreases j,
{
    if j > 0 {
        lemma_header(bits, j - 1);
        lemma_run_step(initial_receiver(), bits, 16 + j - 1);
        assert(bits.subrange(16, 16 + j - 1).push(bits[16 + j - 1]) =~= bits.subrange(16, 16 + j));
    }
}

proof fn lemma_frame_body(bits: Seq<i8>, n: int, h: Physical, m: int)
    requires
        n >= 68,
        bits.len() == 52 + n,
        forall|i: int| 0 <= i < bits.len() ==> #[trigger] bits[i] >= 0,
        runs_without_fault(initial_receiver(), bits.take(52)),
        run_receiver(initial_receiver(), bits.take(52)).0.status == Status::RECEIVING,
        run_receiver(initial_receiver(), bits.take(52)).0.input_data == bits.subrange(52, 52),
        run_receiver(initial_receiver(), bits.take(52)).0.frame_length == n - 1,
        run_receiver(initial_receiver(), bits.take(52)).0.phy_frame == Some(h),
        0 <= m <= n - 1,
    ensures
        runs_without_fault(initial_receiver(), bits.take(52 + m)),
        run_receiver(initial_receiver(), bits.take(52 + m)).0.status == (if m < n - 1 {
            Status::RECEIVING
        } else {
            Status::ANSWER
        }),
        run_receiver(initial_receiver(), bits.take(52 + m)).0.input_data == bits.subrange(52, 52 + m),
        run_receiver(initial_receiver(), bits.take(52 + m)).0.frame_length == n - 1 - m,
        run_receiver(initial_receiver(), bits.take(52 + m)).0.phy_frame == Some(h),
    decreases m,
{
    if m > 0 {
        lemma_frame_body(bits, n, h, m - 1);
        lemma_run_step(initial_receiver(), bits, 52 + m - 1);
        assert(bits.subrange(52, 52 + m - 1).push(bits[52 + m - 1]) =~= bits.subrange(52, 52 + m));
    }
}

/// A reset receiver starts over: whatever bit arrives next, it is back in
/// the state in which it started (empty input, no header, nothing
/// announced, listening with an empty window) and reports nothing.
pub proof fn lemma_reset_restarts(s: ReceiverState, bit: i8)
    requires
        s.status == Status::RESET,
    ensures
        !receiver_faults(s, bit),
        receiver_step(s, bit) == (initial_receiver(), ReceptionView::Idle),
{
}

/// While a frame is being received, before or after its header, a bit for
/// which no tone was recognised drops it: the receiver reports the abort,
/// keeps no bits, no header and nothing announced, and resets.
pub proof fn lemma_lost_tone_aborts(s: ReceiverState, bit: i8)
    requires
        s.status == Status::RECEIVING,
        bit < 0,
    ensures
        !receiver_faults(s, bit),
        receiver_step(s, bit).1 is Aborted,
        receiver_step(s, bit).0.status == Status::RESET,
        receiver_step(s, bit).0.input_data.len() == 0,
        receiver_step(s, bit).0.phy_frame is None,
        receiver_step(s, bit).0.frame_length == 0,
{
}

/// Running over `a` then `b` is running over `a`, then over `b` from where
/// `a` left the receiver.
pub(crate) proof fn lemma_run_append(s: ReceiverState, a: Seq<i8>, b: Seq<i8>)
    ensures
        run_receiver(s, a + b).0 == run_receiver(run_receiver(s, a).0, b).0,
        run_receiver(s, a + b).1 == run_receiver(s, a).1 + run_receiver(
            run_receiver(s, a).0,
            b,
        ).1,
        runs_without_fault(s, a + b) == (runs_without_fault(s, a) && runs_without_fault(
            run_receiver(s, a).0,
            b,
        )),
    decreases b.len(),
{
    if b.len() == 0 {
        assert(a + b =~= a);
        assert(run_receiver(s, a).1 + Seq::<ReceptionView>::empty() =~= run_receiver(s, a).1);
    } else {
        lemma_run_append(s, a, b.drop_last());
        assert((a + b).drop_last() =~= a + b.drop_last());
        assert((a + b).last() == b.last());
        let mid = run_receiver(s, a).0;
        let e1 = run_receiver(s, a).1;
        let e2 = run_receiver(mid, b.drop_last()).1;
        let ev = receiver_step(run_receiver(mid, b.drop_last()).0, b.last()).1;
        assert((e1 + e2).push(ev) =~= e1 + e2.push(ev));
    }
}

/// One report per bit.
pub(crate) proof fn lemma_run_len(s: ReceiverState, a: Seq<i8>)
    ensures
        run_receiver(s, a).1.len() == a.len(),
    decreases a.len(),
{
    if a.len() > 0 {
        lemma_run_len(s, a.drop_last());
    }
}

/// The window of a receiver reset before the lead-in, after the first `k`
/// of its bits but the first.
spec fn restart_window(k: int) -> Seq<i8> {
    (empty_window() + lead_in().subrange(9, 9 + k)).subrange(k, k + 8)
}

proof fn lemma_restart_listening(y: Seq<i8>, k: int)
    requires
        y.len() == 15,
        forall|i: int| 0 <= i < 15 ==> #[trigger] y[i] == lead_in()[i + 9],
        0 <= k <= 14,
    ensures
        runs_without_fault(initial_receiver(), y.take(k)),
        run_receiver(initial_receiver(), y.take(k)).0 == (ReceiverState {
            recent_bin: restart_window(k),
            ..initial_receiver()
        }),
    decreases k,
{
    if k == 0 {
        assert(y.take(0) =~= Seq::<i8>::empty());
        assert(restart_window(0) =~= empty_window());
    } else {
        lemma_restart_listening(y, k - 1);
        lemma_run_step(initial_receiver(), y, k - 1);
        let w = shift_in(restart_window(k - 1), y[k - 1]);
        assert(w =~= restart_window(k));
        if k <= 7 {
            assert(w[0] == -1i8);
            assert(w[0] != ISFD@[0]);
        } else {
            let m = mismatch_at(k + 1);
            assert(w[m] == lead_in()[k + 1 + m]);
            assert(w[m] != ISFD@[m]);
        }
    }
}

/// A reset receiver given the lead-in of a frame recognises its start frame
/// delimiter with the same state as a receiver that started listening.
proof fn lemma_restart_reaches_delimiter(r: ReceiverState, b: Seq<i8>)
    requires
        r.status == Status::RESET,
        b.len() >= 16,
        forall|i: int| 0 <= i < 16 ==> #[trigger] b[i] == lead_in()[i + 8],
    ensures
        runs_without_fault(r, b.take(16)),
        run_receiver(r, b.take(16)).0 == run_receiver(initial_receiver(), b.take(16)).0,
{
    let init = initial_receiver();
    // From the start: listening over the whole lead-in.
    lemma_listening(b, 15);
    lemma_run_step(init, b, 15);
    assert(shift_in(lead_in().subrange(15, 23), b[15]) =~= ISFD@);
    // From the reset: the first bit restarts, the other fifteen are heard.
    let y = b.subrange(1, 16);
    assert forall|i: int| 0 <= i < 15 implies #[trigger] y[i] == lead_in()[i + 9] by {
        assert(y[i] == b[i + 1]);
    }
    let head = b.take(1);
    assert(b.take(0) =~= Seq::<i8>::empty());
    assert(run_receiver(r, b.take(0)).0 == r);
    assert(runs_without_fault(r, b.take(0)));
    lemma_run_step(r, b, 0);
    lemma_reset_restarts(r, b[0]);
    assert(run_receiver(r, head).0 == init);
    assert(runs_without_fault(r, head));
    lemma_restart_listening(y, 14);
    lemma_run_step(init, y, 14);
    assert(y.take(15) =~= y);
    assert(shift_in(restart_window(14), y[14]) =~= ISFD@);
    assert(head + y =~= b.take(16));
    lemma_run_append(r, head, y);
}

/// A receiver given two readable frames one after the other, as sent,
/// reports each frame's data link part, with whether its check sequence
/// matched: the first with the first frame's last bit, the second with the
/// last bit; it reads both without a panic and resets.
#[verifier::spinoff_prover]
#[verifier::rlimit(30)]
pub proof fn lemma_receives_frames_in_turn(h1: Seq<u8>, f1: Seq<u8>, h2: Seq<u8>, f2: Seq<u8>)
    requires
        readable_frame(h1, f1),
        readable_frame(h2, f2),
    ensures
        ({
            let a = frame_signal(h1, f1);
            let b = frame_signal(h2, f2);
            let r = run_receiver(initial_receiver(), a + b);
            let d1 = parse_datalink(f1)->Ok_0;
            let d2 = parse_datalink(f2)->Ok_0;
            &&& runs_without_fault(initial_receiver(), a + b)
            &&& r.1.len() == a.len() + b.len()
            &&& r.1[a.len() - 1] == ReceptionView::FrameReceived(d1, fcs_consistent(d1))
            &&& r.1.last() == ReceptionView::FrameReceived(d2, fcs_consistent(d2))
            &&& r.0.status == Status::RESET
        }),
{
    let init = initial_receiver();
    let a = frame_signal(h1, f1);
    let b = frame_signal(h2, f2);
    lemma_receives_frame_bits(h1, f1);
    lemma_receives_frame_bits(h2, f2);
    lemma_frame_phases(h2, f2);
    let ra = run_receiver(init, a).0;
    let ea = run_receiver(init, a).1;
    lemma_run_append(init, a, b);
    lemma_run_len(init, a);
    lemma_run_len(ra, b);
    lemma_frame_phases(h1, f1);
    assert(a.len() > 0);
    assert(run_receiver(init, a + b).1[a.len() - 1] == ea[a.len() - 1]);
    assert(ea[a.len() - 1] == ea.last());
    lemma_lead_in_of_signal(h2, f2);
    lemma_restart_reaches_delimiter(ra, b);
    let rest = b.subrange(16, b.len() as int);
    assert(b.take(16) + rest =~= b);
    lemma_run_append(ra, b.take(16), rest);
    lemma_run_append(init, b.take(16), rest);
    let mid = run_receiver(init, b.take(16)).0;
    lemma_run_len(mid, rest);
    let eb = run_receiver(ra, b).1;
    let er = run_receiver(mid, rest).1;
    assert(eb.last() == er.last());
    assert(run_receiver(init, b).1.last() == er.last());
    assert(run_receiver(init, a + b).1.last() == eb.last());
}

/// The first sixteen bits of a frame as sent are the lead-in after the
/// empty window.
pub(crate) proof fn lemma_lead_in_of_signal(h: Seq<u8>, f: Seq<u8>)
    ensures
        frame_signal(h, f).len() >= 16,
        forall|i: int| 0 <= i < 16 ==> #[trigger] frame_signal(h, f)[i] == lead_in()[i + 8],
{
    let raw = crate::PREAMBLE@ + crate::USFD@ + h + f;
    let lead = crate::PREAMBLE@ + crate::USFD@;
    assert(lead =~= seq![1u8, 0u8, 1u8, 0u8, 1u8, 0u8, 1u8, 0u8, 0u8, 0u8, 0u8, 1u8, 0u8, 1u8, 1u8, 0u8]);
    assert forall|i: int| 0 <= i < 16 implies #[trigger] frame_signal(h, f)[i] == lead_in()[i + 8] by {
        assert(raw[i] == lead[i]);
    }
}

/// A protocol frame as the receiver can take it: its header announces the
/// data link frame's length in bits, the frame's check sequence is
/// consistent and its data are bits.
pub open spec fn receivable(p: crate::modem::protocol::ProtocolView) -> bool {
    &&& p.physical.mod_type == ModulationType::BfskNoErrorCorrection
    &&& p.physical.length as nat == 68 + p.datalink.data.len()
    &&& fcs_consistent(p.datalink)
    &&& crate::bytes::all_bits(p.datalink.data)
}

/// A receiver that starts listening and is given, bit by bit, the bits of
/// a protocol frame as sent, reads without a panic and reports last the
/// frame's data link part with a matching check sequence, then resets.
pub proof fn lemma_receives_sent_frame(p: crate::modem::protocol::ProtocolView)
    requires
        receivable(p),
    ensures
        runs_without_fault(
            initial_receiver(),
            as_signed(crate::modem::protocol::protocol_bits(p)),
        ),
        run_receiver(initial_receiver(), as_signed(crate::modem::protocol::protocol_bits(p))).1.last()
            == ReceptionView::FrameReceived(p.datalink, true),
        run_receiver(
            initial_receiver(),
            as_signed(crate::modem::protocol::protocol_bits(p)),
        ).0.status == Status::RESET,
{
    lemma_sent_frame_readable(p);
    let h = crate::physical::frame::physical_bits(p.physical).subrange(16, 52);
    let f = crate::datalink::frame::frame_bits(p.datalink);
    lemma_receives_frame_bits(h, f);
}

/// The bits of a frame as sent: preamble and start frame delimiter, header,
/// data link frame, each value cast to `i8`.
pub open spec fn frame_signal(h: Seq<u8>, f: Seq<u8>) -> Seq<i8> {
    as_signed(crate::PREAMBLE@ + crate::USFD@ + h + f)
}

/// Header and frame bits that a listening receiver reads as one frame: 36
/// header bits of a known modulation type that announce `f.len()` bits,
/// and at least 68 frame bits of a known frame type.
pub open spec fn readable_frame(h: Seq<u8>, f: Seq<u8>) -> bool {
    &&& h.len() == 36
    &&& crate::bytes::all_bits(h)
    &&& crate::bytes::all_bits(f)
    &&& is_modulation_bits(h.take(4))
    &&& crate::bytes::u16_of_bits(h.subrange(4, 20)) == f.len()
    &&& f.len() >= 68
    &&& crate::datalink::enums::is_frame_type_bits(f.take(4))
}

/// Up to the last bit of a readable frame, the receiver listens or receives
/// non-negative bits without a panic, and then answers with the frame's bits
/// but the last gathered.
pub(crate) proof fn lemma_frame_phases(h: Seq<u8>, f: Seq<u8>)
    requires
        readable_frame(h, f),
    ensures
        ({
            let bits = frame_signal(h, f);
            let m: int = 52 + f.len() - 1;
            &&& bits.len() == 52 + f.len()
            &&& forall|i: int| 0 <= i < bits.len() ==> #[trigger] bits[i] >= 0
            &&& signed_as_bits(bits.subrange(52, 52 + f.len() as int)) == f
            &&& runs_without_fault(initial_receiver(), bits.take(m))
            &&& run_receiver(initial_receiver(), bits.take(m)).0.status == Status::ANSWER
            &&& run_receiver(initial_receiver(), bits.take(m)).0.input_data == bits.subrange(52, m)
            &&& forall|k: int|
                0 <= k < m ==> {
                    let st = #[trigger] run_receiver(initial_receiver(), bits.take(k)).0.status;
                    st == Status::LISTENING || (st == Status::RECEIVING && bits[k] >= 0)
                }
        }),
{
    let lead = crate::PREAMBLE@ + crate::USFD@;
    let raw = lead + h + f;
    let bits = as_signed(raw);
    let init = initial_receiver();
    let n: int = f.len() as int;
    assert(lead =~= seq![1u8, 0u8, 1u8, 0u8, 1u8, 0u8, 1u8, 0u8, 0u8, 0u8, 0u8, 1u8, 0u8, 1u8, 1u8, 0u8]);
    assert(crate::bytes::all_bits(raw)) by {
        assert forall|i: int| 0 <= i < raw.len() implies #[trigger] raw[i] <= 1 by {
            if i < 16 {
                assert(raw[i] == lead[i]);
            } else if i < 52 {
                assert(raw[i] == h[i - 16]);
            } else {
                assert(raw[i] == f[i - 52]);
            }
        }
    }
    lemma_signed_roundtrip(raw);
    assert(raw.len() == 52 + n);
    // Listening: the window runs over the lead-in.
    assert forall|i: int| 0 <= i < 16 implies #[trigger] bits[i] == lead_in()[i + 8] by {
        assert(raw[i] == lead[i]);
    }
    lemma_listening(bits, 15);
    lemma_run_step(init, bits, 15);
    assert(shift_in(lead_in().subrange(15, 23), bits[15]) =~= ISFD@);
    // Header: 36 bits while receiving.
    assert(bits.subrange(16, 16) =~= Seq::<i8>::empty());
    lemma_header(bits, 35);
    lemma_run_step(init, bits, 51);
    let header_bits = bits.subrange(16, 52);
    assert(bits.subrange(16, 51).push(bits[51]) =~= header_bits);
    assert(signed_as_bits(header_bits) =~= h) by {
        assert forall|i: int| 0 <= i < 36 implies #[trigger] signed_as_bits(header_bits)[i]
            == h[i] by {
            assert(raw[16 + i] == h[i]);
            assert(signed_as_bits(bits)[16 + i] == raw[16 + i]);
        }
    }
    let ph = physical_from(h);
    assert(run_receiver(init, bits.take(52)).0.phy_frame == Some(ph));
    assert(run_receiver(init, bits.take(52)).0.frame_length == n - 1);
    // Data link frame: n - 1 bits while receiving.
    assert(bits.subrange(52, 52) =~= Seq::<i8>::empty());
    lemma_frame_body(bits, n, ph, n - 1);
    assert(signed_as_bits(bits.subrange(52, 52 + n)) =~= f) by {
        assert forall|i: int| 0 <= i < n implies #[trigger] signed_as_bits(
            bits.subrange(52, 52 + n),
        )[i] == f[i] by {
            assert(raw[52 + i] == f[i]);
            assert(signed_as_bits(bits)[52 + i] == raw[52 + i]);
        }
    }
    assert forall|k: int| 0 <= k < 52 + n - 1 implies {
        let st = #[trigger] run_receiver(init, bits.take(k)).0.status;
        st == Status::LISTENING || (st == Status::RECEIVING && bits[k] >= 0)
    } by {
        if k <= 15 {
            lemma_listening(bits, k);
        } else if k < 52 {
            lemma_header(bits, k - 16);
        } else {
            lemma_frame_body(bits, n, ph, k - 52);
        }
    }
}

/// A receiver that starts listening and is given, bit by bit, preamble and
/// start frame delimiter, then any 36 header bits of a known modulation type
/// that announce `f.len()` bits, then any `f.len() >= 68` bits of a known
/// frame type, reads without a panic and reports last the data link frame
/// read from `f`, with whether its check sequence matched, then resets.
pub proof fn lemma_receives_frame_bits(h: Seq<u8>, f: Seq<u8>)
    requires
        readable_frame(h, f),
    ensures
        ({
            let bits = frame_signal(h, f);
            let d = parse_datalink(f)->Ok_0;
            &&& parse_datalink(f) is Ok
            &&& runs_without_fault(initial_receiver(), bits)
            &&& run_receiver(initial_receiver(), bits).1.last() == ReceptionView::FrameReceived(
                d,
                fcs_consistent(d),
            )
            &&& run_receiver(initial_receiver(), bits).0.status == Status::RESET
        }),
{
    let bits = frame_signal(h, f);
    let n: int = f.len() as int;
    lemma_frame_phases(h, f);
    lemma_run_step(initial_receiver(), bits, 52 + n - 1);
    assert(bits.subrange(52, 52 + n - 1).push(bits[52 + n - 1]) =~= bits.subrange(52, 52 + n));
    assert(bits.take(52 + n) == bits);
}

/// The header and data link bits of a receivable protocol frame as sent
/// form a readable frame, whose data link part reads back as the frame.
pub(crate) proof fn lemma_sent_frame_readable(p: crate::modem::protocol::ProtocolView)
    requires
        receivable(p),
    ensures
        ({
            let h = crate::physical::frame::physical_bits(p.physical).subrange(16, 52);
            let f = crate::datalink::frame::frame_bits(p.datalink);
            &&& readable_frame(h, f)
            &&& as_signed(crate::modem::protocol::protocol_bits(p)) == frame_signal(h, f)
            &&& parse_datalink(f) == Ok::<DatalinkView, Error>(p.datalink)
        }),
{
    let pb = crate::physical::frame::physical_bits(p.physical);
    let h = pb.subrange(16, 52);
    let f = crate::datalink::frame::frame_bits(p.datalink);
    crate::datalink::frame::lemma_frame_bits_len(p.datalink);
    lemma_protocol_bits_are_bits(p);
    crate::physical::frame::lemma_physical_roundtrip(p.physical);
    crate::datalink::frame::lemma_datalink_roundtrip(p.datalink);
    let raw = crate::modem::protocol::protocol_bits(p);
    assert(raw =~= crate::PREAMBLE@ + crate::USFD@ + h + f) by {
        assert(pb =~= crate::PREAMBLE@ + crate::USFD@ + h);
    }
    assert(crate::bytes::all_bits(h)) by {
        assert forall|i: int| 0 <= i < 36 implies #[trigger] h[i] <= 1 by {
            assert(raw[16 + i] == h[i]);
        }
    }
    assert(crate::bytes::all_bits(f)) by {
        assert forall|i: int| 0 <= i < f.len() implies #[trigger] f[i] <= 1 by {
            assert(raw[52 + i] == f[i]);
        }
    }
}

/// A receiver given two protocol frames as sent, one after the other,
/// reports each frame's data link part with a matching check sequence: the
/// first with the first frame's last bit, the second with the last bit.
pub proof fn lemma_receives_sent_frames_in_turn(
    p: crate::modem::protocol::ProtocolView,
    q: crate::modem::protocol::ProtocolView,
)
    requires
        receivable(p),
        receivable(q),
    ensures
        ({
            let a = as_signed(crate::modem::protocol::protocol_bits(p));
            let b = as_signed(crate::modem::protocol::protocol_bits(q));
            let r = run_receiver(initial_receiver(), a + b);
            &&& runs_without_fault(initial_receiver(), a + b)
            &&& r.1.len() == a.len() + b.len()
            &&& r.1[a.len() - 1] == ReceptionView::FrameReceived(p.datalink, true)
            &&& r.1.last() == ReceptionView::FrameReceived(q.datalink, true)
        }),
{
    lemma_sent_frame_readable(p);
    lemma_sent_frame_readable(q);
    lemma_receives_frames_in_turn(
        crate::physical::frame::physical_bits(p.physical).subrange(16, 52),
        crate::datalink::frame::frame_bits(p.datalink),
        crate::physical::frame::physical_bits(q.physical).subrange(16, 52),
        crate::datalink::frame::frame_bits(q.datalink),
    );
}

/// A frame that `Protocol::new` builds for a text of at most 8183
/// characters (so that its length fits the header's 16 bits) is read back
/// by a listening receiver: its last report is the data link frame, with a
/// matching check sequence.
pub proof fn lemma_receives_new_protocol(
    text: Seq<char>,
    src: u8,
    dst: u8,
    seq: u16,
    f_type: crate::datalink::frame::FrameType,
)
    requires
        68 + 8 * text.len() <= 65535,
    ensures
        ({
            let p = crate::modem::protocol::new_protocol_view(text, src, dst, seq, f_type);
            let bits = as_signed(crate::modem::protocol::protocol_bits(p));
            &&& receivable(p)
            &&& runs_without_fault(initial_receiver(), bits)
            &&& run_receiver(initial_receiver(), bits).1.last() == ReceptionView::FrameReceived(
                p.datalink,
                true,
            )
        }),
{
    let p = crate::modem::protocol::new_protocol_view(text, src, dst, seq, f_type);
    crate::bytes::lemma_text_bits_len(text);
    crate::bytes::lemma_text_bits_are_bits(text);
    assert(receivable(p));
    lemma_receives_sent_frame(p);
}

} // verus!
