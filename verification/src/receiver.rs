//! The decisions of the text receiver, one demodulated symbol at a time.
//!
//! The receiver waits until the last eight bits are the start frame
//! delimiter, then gathers bits; when a whole number of bytes has arrived
//! and the last eight bits are the delimiter again, it corrects the gathered
//! bits as a Hamming code, reads them as text, and answers.
use vstd::prelude::*;

use crate::ascii::{decode_u8, numerals_readable, numerals_text};
use crate::hamming::Hamming::{
    block_correctable, correct_hamming_code, decode_block, encode_block, hamming_code,
    hamming_correctable, hamming_decode, lemma_decode_append_block, lemma_hamming_code_bits,
    lemma_hamming_code_block, lemma_hamming_roundtrip,
};
use crate::modem::protocol::signed_as_bits;
use crate::modem::reception::{as_bits, empty_window};
use crate::{ModulationMethod, Status, ISFD};

verus! {

/// Whether the first eight values of `data` are the start frame delimiter.
pub fn check_syn(data: &[i8]) -> (ok_syn: bool)
    requires
        data@.len() >= 8,
    ensures
        ok_syn == (data@.take(8) == ISFD@),
{
    let d = ISFD;
    let mut i: usize = 0;
    while i < 8
        invariant
            i <= 8,
            data@.len() >= 8,
            d@ == ISFD@,
            forall|j: int| 0 <= j < i ==> data@[j] == d@[j],
        decreases 8 - i,
    {
        if d[i] != data[i] {
            assert(data@.take(8)[i as int] != ISFD@[i as int]);
            return false;
        }
        i += 1;
    }
    assert(data@.take(8) =~= ISFD@);
    true
}

/// The text receiver's state: the last eight bits, the bits gathered since
/// the delimiter, and the status.
pub struct SyncReceiver {
    recent_bin: [i8; 8],
    input_data: Vec<i8>,
    status: Status,
}

/// The text receiver's state as values.
#[verifier::ext_equal]
pub struct SyncState {
    pub recent_bin: Seq<i8>,
    pub input_data: Seq<i8>,
    pub status: Status,
}

impl View for SyncReceiver {
    type V = SyncState;

    closed spec fn view(&self) -> SyncState {
        SyncState {
            recent_bin: self.recent_bin@,
            input_data: self.input_data@,
            status: self.status,
        }
    }
}

/// What one symbol made the text receiver do.
pub enum SyncEvent {
    /// Nothing to report.
    Idle,
    /// The start frame delimiter was recognised.
    Synced,
    /// A text was received.
    Message(Vec<char>),
    /// The answer tone is due.
    Answer,
}

/// What one symbol made the text receiver do, as values.
#[verifier::ext_equal]
pub enum SyncEventView {
    Idle,
    Synced,
    Message(Seq<char>),
    Answer,
}

impl View for SyncEvent {
    type V = SyncEventView;

    open spec fn view(&self) -> SyncEventView {
        match self {
            SyncEvent::Idle => SyncEventView::Idle,
            SyncEvent::Synced => SyncEventView::Synced,
            SyncEvent::Message(m) => SyncEventView::Message(m@),
            SyncEvent::Answer => SyncEventView::Answer,
        }
    }
}

/// The number of bits in one symbol of a modulation method.
pub open spec fn symbol_bits(method: ModulationMethod) -> nat {
    match method {
        ModulationMethod::BFSK => 1,
        ModulationMethod::QFSK => 2,
    }
}

/// The last eight bits after a symbol: one bit shifted in, or for QFSK the
/// second bit then the first.
pub open spec fn sync_window(w: Seq<i8>, bits: Seq<i8>, method: ModulationMethod) -> Seq<i8> {
    match method {
        ModulationMethod::BFSK => w.drop_first().push(bits[0]),
        ModulationMethod::QFSK => w.drop_first().drop_first().push(bits[1]).push(bits[0]),
    }
}

/// Eight zero bits.
pub open spec fn zero_window() -> Seq<i8> {
    Seq::new(8, |i: int| 0i8)
}

/// The state in which the text receiver starts.
pub open spec fn initial_sync() -> SyncState {
    SyncState { recent_bin: empty_window(), input_data: Seq::empty(), status: Status::LISTENING }
}

/// The step at which the gathered bits are read as a text.
pub open spec fn message_due(s: SyncState, bits: Seq<i8>, method: ModulationMethod) -> bool {
    &&& s.status == Status::RECEIVING
    &&& (s.input_data + bits).len() % 8 == 0
    &&& sync_window(s.recent_bin, bits, method) == ISFD@
}

/// The text read from the gathered bits: Hamming corrected, then read as
/// text.
pub open spec fn received_text(input: Seq<i8>) -> Seq<char> {
    numerals_text(hamming_decode(signed_as_bits(input)))
}

/// The symbol would make the text receiver stop with a panic: the gathered
/// bits hold a double error (or overflow the correction), or the corrected
/// bits are no readable text.
pub open spec fn sync_faults(s: SyncState, bits: Seq<i8>, method: ModulationMethod) -> bool {
    let input = signed_as_bits(s.input_data + bits);
    message_due(s, bits, method) && !(hamming_correctable(input) && numerals_readable(
        hamming_decode(input),
    ))
}

/// The text receiver's state and report after one more symbol.
pub open spec fn sync_step(s: SyncState, bits: Seq<i8>, method: ModulationMethod) -> (
    SyncState,
    SyncEventView,
) {
    let w = sync_window(s.recent_bin, bits, method);
    match s.status {
        Status::LISTENING => {
            if w == ISFD@ {
                (
                    SyncState { recent_bin: zero_window(), status: Status::RECEIVING, ..s },
                    SyncEventView::Synced,
                )
            } else {
                (SyncState { recent_bin: w, ..s }, SyncEventView::Idle)
            }
        },
        Status::RECEIVING => {
            let input = s.input_data + bits;
            if message_due(s, bits, method) {
                (
                    SyncState {
                        recent_bin: w,
                        input_data: Seq::empty(),
                        status: Status::ANSWER,
                    },
                    SyncEventView::Message(received_text(input)),
                )
            } else {
                (SyncState { recent_bin: w, input_data: input, ..s }, SyncEventView::Idle)
            }
        },
        Status::ANSWER => (
            SyncState { recent_bin: w, status: Status::LISTENING, ..s },
            SyncEventView::Answer,
        ),
        _ => (SyncState { recent_bin: w, ..s }, SyncEventView::Idle),
    }
}

impl SyncReceiver {
    /// A text receiver that listens.
    pub fn new() -> (r: Self)
        ensures
            r@ == initial_sync(),
    {
        let r = SyncReceiver { recent_bin: [-1; 8], input_data: Vec::new(), status: Status::LISTENING };
        assert(r@.recent_bin =~= empty_window());
        r
    }

    /// The receiver's status.
    pub fn status(&self) -> (s: Status)
        ensures
            s == self@.status,
    {
        self.status
    }

    /// The last eight bits after `bits`.
    fn shifted(&self, bits: &[i8], method: ModulationMethod) -> (w: [i8; 8])
        requires
            bits@.len() == symbol_bits(method),
        ensures
            w@ == sync_window(self@.recent_bin, bits@, method),
    {
        let r = self.recent_bin;
        let w: [i8; 8] = match method {
            ModulationMethod::BFSK => [r[1], r[2], r[3], r[4], r[5], r[6], r[7], bits[0]],
            ModulationMethod::QFSK => [r[2], r[3], r[4], r[5], r[6], r[7], bits[1], bits[0]],
        };
        assert(w@ =~= sync_window(self@.recent_bin, bits@, method));
        w
    }

    /// Whether the symbol `bits` would make the receiver stop with a panic.
    pub fn faults_on(&self, bits: &[i8], method: ModulationMethod) -> (r: bool)
        requires
            bits@.len() == symbol_bits(method),
        ensures
            r == sync_faults(self@, bits@, method),
    {
        let w = self.shifted(bits, method);
        let rest = (self.input_data.len() % 8 + bits.len()) % 8;
        assert(rest == (self@.input_data + bits@).len() % 8);
        if self.status != Status::RECEIVING || rest != 0 || !check_syn(w.as_slice()) {
            assert(w@.take(8) =~= w@);
            return false;
        }
        assert(w@.take(8) =~= w@);
        let mut input = as_bits(&self.input_data);
        let mut i: usize = 0;
        while i < bits.len()
            invariant
                i <= bits@.len(),
                input@ == signed_as_bits(self@.input_data + bits@.take(i as int)),
            decreases bits@.len() - i,
        {
            input.push(bits[i] as u8);
            assert(input@ =~= signed_as_bits(self@.input_data + bits@.take(i + 1)));
            i += 1;
        }
        assert(bits@.take(bits@.len() as int) =~= bits@);
        if !crate::hamming::Hamming::is_correctable(input.as_slice()) {
            return true;
        }
        let corrected = correct_hamming_code(input);
        !crate::ascii::is_readable(corrected.as_slice())
    }

    /// Takes one demodulated symbol (one bit for BFSK, two for QFSK) and
    /// reports what it made the receiver do.
    pub fn step(&mut self, bits: &[i8], method: ModulationMethod) -> (ev: SyncEvent)
        requires
            bits@.len() == symbol_bits(method),
            !sync_faults(old(self)@, bits@, method),
        ensures
            (final(self)@, ev@) == sync_step(old(self)@, bits@, method),
    {
        let w = self.shifted(bits, method);
        assert(w@.take(8) =~= w@);
        match self.status {
            Status::LISTENING => {
                let sync = check_syn(w.as_slice());
                assert(sync == (w@ == ISFD@));
                if sync {
                    self.recent_bin = [0; 8];
                    self.status = Status::RECEIVING;
                    assert(self@.recent_bin =~= zero_window());
                    assert(self@ =~= sync_step(old(self)@, bits@, method).0);
                    SyncEvent::Synced
                } else {
                    self.recent_bin = w;
                    assert(self@ =~= sync_step(old(self)@, bits@, method).0);
                    SyncEvent::Idle
                }
            },
            Status::RECEIVING => {
                self.recent_bin = w;
                let mut i: usize = 0;
                let ghost before = self.input_data@;
                while i < bits.len()
                    invariant
                        i <= bits@.len(),
                        self.input_data@ == before + bits@.take(i as int),
                        self.recent_bin == w,
                        self.status == Status::RECEIVING,
                    decreases bits@.len() - i,
                {
                    self.input_data.push(bits[i]);
                    assert(self.input_data@ =~= before + bits@.take(i + 1));
                    i += 1;
                }
                assert(bits@.take(bits@.len() as int) =~= bits@);
                let sync = check_syn(w.as_slice());
                assert(sync == (w@ == ISFD@));
                if self.input_data.len() % 8 == 0 && sync {
                    assert(message_due(old(self)@, bits@, method));
                    let input = as_bits(&self.input_data);
                    let correct_data = correct_hamming_code(input);
                    let decoded = decode_u8(correct_data);
                    self.status = Status::ANSWER;
                    self.input_data.clear();
                    assert(self@ =~= sync_step(old(self)@, bits@, method).0);
                    assert(decoded@ == received_text(before + bits@));
                    SyncEvent::Message(decoded)
                } else {
                    assert(!message_due(old(self)@, bits@, method));
                    assert(self@ =~= sync_step(old(self)@, bits@, method).0);
                    SyncEvent::Idle
                }
            },
            Status::ANSWER => {
                self.recent_bin = w;
                self.status = Status::LISTENING;
                SyncEvent::Answer
            },
            _ => {
                self.recent_bin = w;
                SyncEvent::Idle
            },
        }
    }
}


/// A received text ends the reception: the gathered bits are dropped, the
/// last eight bits are the closing delimiter, and the answer is due.
pub proof fn lemma_message_clears(s: SyncState, bits: Seq<i8>, method: ModulationMethod)
    requires
        sync_step(s, bits, method).1 is Message,
    ensures
        sync_step(s, bits, method).0.input_data.len() == 0,
        sync_step(s, bits, method).0.recent_bin == ISFD@,
        sync_step(s, bits, method).0.status == Status::ANSWER,
{
}

/// The text receiver's state and reports after each of `bits` in turn, one
/// bit per symbol (BFSK).
pub open spec fn run_sync(s: SyncState, bits: Seq<i8>) -> (SyncState, Seq<SyncEventView>)
    decreases bits.len(),
{
    if bits.len() == 0 {
        (s, Seq::empty())
    } else {
        let before = run_sync(s, bits.drop_last());
        let after = sync_step(before.0, seq![bits.last()], ModulationMethod::BFSK);
        (after.0, before.1.push(after.1))
    }
}

/// No bit of `bits` makes the text receiver stop with a panic.
pub open spec fn runs_sync_without_fault(s: SyncState, bits: Seq<i8>) -> bool
    decreases bits.len(),
{
    if bits.len() == 0 {
        true
    } else {
        runs_sync_without_fault(s, bits.drop_last()) && !sync_faults(
            run_sync(s, bits.drop_last()).0,
            seq![bits.last()],
            ModulationMethod::BFSK,
        )
    }
}

proof fn lemma_sync_run_step(s: SyncState, bits: Seq<i8>, n: int)
    requires
        0 <= n < bits.len(),
    ensures
        run_sync(s, bits.take(n + 1)) == ({
            let before = run_sync(s, bits.take(n));
            let after = sync_step(before.0, seq![bits[n]], ModulationMethod::BFSK);
            (after.0, before.1.push(after.1))
        }),
        runs_sync_without_fault(s, bits.take(n + 1)) == (runs_sync_without_fault(s, bits.take(n))
            && !sync_faults(run_sync(s, bits.take(n)).0, seq![bits[n]], ModulationMethod::BFSK)),
{
    assert(bits.take(n + 1).drop_last() == bits.take(n));
    assert(bits.take(n + 1).last() == bits[n]);
}

/// None of `events` is a received text.
pub open spec fn no_message(events: Seq<SyncEventView>) -> bool {
    forall|k: int| 0 <= k < events.len() ==> !(#[trigger] events[k] is Message)
}

proof fn lemma_no_message_push(events: Seq<SyncEventView>, e: SyncEventView)
    requires
        no_message(events),
        !(e is Message),
    ensures
        no_message(events.push(e)),
{
    assert forall|k: int| 0 <= k < events.push(e).len() implies !(#[trigger] events.push(
        e,
    )[k] is Message) by {
        if k < events.len() {
            assert(events.push(e)[k] == events[k]);
        }
    }
}

/// The empty window followed by the start frame delimiter.
spec fn sync_lead_in() -> Seq<i8> {
    empty_window() + ISFD@
}

proof fn lemma_sync_listening(bits: Seq<i8>, k: int)
    requires
        bits.len() >= 8,
        forall|i: int| 0 <= i < 8 ==> #[trigger] bits[i] == ISFD@[i],
        0 <= k <= 7,
    ensures
        runs_sync_without_fault(initial_sync(), bits.take(k)),
        run_sync(initial_sync(), bits.take(k)).0 == (SyncState {
            recent_bin: sync_lead_in().subrange(k, k + 8),
            ..initial_sync()
        }),
        no_message(run_sync(initial_sync(), bits.take(k)).1),
    decreases k,
{
    if k == 0 {
        assert(bits.take(0) =~= Seq::<i8>::empty());
        assert(sync_lead_in().subrange(0, 8) =~= empty_window());
    } else {
        lemma_sync_listening(bits, k - 1);
        lemma_sync_run_step(initial_sync(), bits, k - 1);
        let w = sync_window(
            sync_lead_in().subrange(k - 1, k + 7),
            seq![bits[k - 1]],
            ModulationMethod::BFSK,
        );
        assert(w =~= sync_lead_in().subrange(k, k + 8));
        assert(w[0] == -1i8);
        let prev = run_sync(initial_sync(), bits.take(k - 1));
        lemma_no_message_push(
            prev.1,
            sync_step(prev.0, seq![bits[k - 1]], ModulationMethod::BFSK).1,
        );
    }
}

/// The last eight of eight zeros followed by `input`.
spec fn last_eight(input: Seq<i8>) -> Seq<i8> {
    (zero_window() + input).subrange(input.len() as int, input.len() + 8 as int)
}

proof fn lemma_last_eight_push(input: Seq<i8>, b: i8)
    ensures
        last_eight(input).drop_first().push(b) == last_eight(input.push(b)),
        input.len() + 1 >= 8 ==> last_eight(input.push(b)) == input.push(b).subrange(
            input.len() + 1 - 8,
            input.len() + 1 as int,
        ),
{
    assert(last_eight(input).drop_first().push(b) =~= last_eight(input.push(b)));
    if input.len() + 1 >= 8 {
        assert(last_eight(input.push(b)) =~= input.push(b).subrange(
            input.len() + 1 - 8,
            input.len() + 1 as int,
        ));
    }
}

/// No code word of four values is the start frame delimiter.
proof fn lemma_codeword_not_delimiter(d: Seq<u8>)
    requires
        d.len() == 4,
    ensures
        crate::modem::reception::as_signed(crate::hamming::Hamming::encode_block(d)) != ISFD@,
{
    let c = crate::modem::reception::as_signed(crate::hamming::Hamming::encode_block(d));
    if c == ISFD@ {
        assert(c[0] == ISFD@[0] && c[2] == ISFD@[2] && c[4] == ISFD@[4] && c[5] == ISFD@[5]
            && c[6] == ISFD@[6]);
    }
}

proof fn lemma_sync_receiving(bits: Seq<i8>, hlen: int, m: int)
    requires
        hlen % 8 == 0,
        bits.len() == hlen + 16,
        forall|q: int|
            0 <= q < hlen / 8 ==> #[trigger] bits.subrange(8 + 8 * q, 16 + 8 * q) != ISFD@,
        runs_sync_without_fault(initial_sync(), bits.take(8)),
        run_sync(initial_sync(), bits.take(8)).0 == (SyncState {
            recent_bin: zero_window(),
            input_data: Seq::empty(),
            status: Status::RECEIVING,
        }),
        no_message(run_sync(initial_sync(), bits.take(8)).1),
        0 <= m <= hlen + 7,
    ensures
        runs_sync_without_fault(initial_sync(), bits.take(8 + m)),
        run_sync(initial_sync(), bits.take(8 + m)).0 == (SyncState {
            recent_bin: last_eight(bits.subrange(8, 8 + m)),
            input_data: bits.subrange(8, 8 + m),
            status: Status::RECEIVING,
        }),
        no_message(run_sync(initial_sync(), bits.take(8 + m)).1),
    decreases m,
{
    if m == 0 {
        assert(bits.subrange(8, 8) =~= Seq::<i8>::empty());
        assert(last_eight(Seq::<i8>::empty()) =~= zero_window());
    } else {
        lemma_sync_receiving(bits, hlen, m - 1);
        lemma_sync_run_step(initial_sync(), bits, 8 + m - 1);
        let input = bits.subrange(8, 8 + m - 1);
        let b = bits[8 + m - 1];
        assert(input.push(b) =~= bits.subrange(8, 8 + m));
        assert(input + seq![b] =~= input.push(b));
        lemma_last_eight_push(input, b);
        if m % 8 == 0 {
            let q = m / 8 - 1;
            assert(0 <= q < hlen / 8);
            assert(bits.subrange(8, 8 + m).subrange(m - 8, m) =~= bits.subrange(8 + 8 * q, 16 + 8
                * q));
        }
        let prev = run_sync(initial_sync(), bits.take(8 + m - 1));
        lemma_no_message_push(prev.1, sync_step(prev.0, seq![b], ModulationMethod::BFSK).1);
    }
}

/// A text receiver that starts listening and is given, bit by bit, what
/// the transmitter sends for a non-empty text whose character codes are
/// below 256, reads without a panic and reports that text once, with the
/// last bit and at no earlier one, then answers.
pub proof fn lemma_receives_transmitted_text(t: Seq<char>)
    requires
        t.len() > 0,
        forall|i: int| 0 <= i < t.len() ==> (#[trigger] t[i] as u32) < 256,
    ensures
        runs_sync_without_fault(
            initial_sync(),
            crate::modem::reception::as_signed(crate::transmitter::transmitted_bits(t)),
        ),
        run_sync(
            initial_sync(),
            crate::modem::reception::as_signed(crate::transmitter::transmitted_bits(t)),
        ).1.last() == SyncEventView::Message(t),
        no_message(
            run_sync(
                initial_sync(),
                crate::modem::reception::as_signed(crate::transmitter::transmitted_bits(t)),
            ).1.drop_last(),
        ),
        run_sync(
            initial_sync(),
            crate::modem::reception::as_signed(crate::transmitter::transmitted_bits(t)),
        ).0.status == Status::ANSWER,
{
    let tb = crate::bytes::text_bits(t);
    let tx = crate::transmitter::transmitted_bits(t);
    let bits = crate::modem::reception::as_signed(tx);
    let init = initial_sync();
    crate::bytes::lemma_text_bits_len(t);
    crate::bytes::lemma_text_bits_are_bits(t);
    lemma_hamming_code_bits(tb);
    let h = hamming_code(tb);
    let n = t.len() as int;
    assert(tb.len() == 8 * n);
    lemma_hamming_code_block(tb, 0);
    assert(h.len() == 16 * n);
    let u = crate::USFD@;
    assert(crate::bytes::all_bits(tx)) by {
        assert forall|i: int| 0 <= i < tx.len() implies #[trigger] tx[i] <= 1 by {
            if 8 <= i < 8 + h.len() {
                assert(tx[i] == h[i - 8]);
            }
        }
    }
    crate::modem::reception::lemma_signed_roundtrip(tx);
    assert(bits.len() == 16 * n + 16);
    // Listening for the first delimiter.
    assert forall|i: int| 0 <= i < 8 implies #[trigger] bits[i] == ISFD@[i] by {
        assert(tx[i] == u[i]);
    }
    lemma_sync_listening(bits, 7);
    lemma_sync_run_step(init, bits, 7);
    assert(sync_window(sync_lead_in().subrange(7, 15), seq![bits[7]], ModulationMethod::BFSK)
        =~= ISFD@);
    let first = run_sync(init, bits.take(7));
    lemma_no_message_push(first.1, sync_step(first.0, seq![bits[7]], ModulationMethod::BFSK).1);
    // Receiving the code words: none of them is the delimiter.
    crate::transmitter::lemma_bits_encodable(tb);
    assert forall|q: int| 0 <= q < h.len() / 8 implies #[trigger] bits.subrange(
        8 + 8 * q,
        16 + 8 * q,
    ) != ISFD@ by {
        lemma_hamming_code_block(tb, q);
        let d = tb.subrange(4 * q, 4 * q + 4);
        lemma_codeword_not_delimiter(d);
        assert(bits.subrange(8 + 8 * q, 16 + 8 * q) =~= crate::modem::reception::as_signed(
            encode_block(d),
        )) by {
            assert forall|i: int| 0 <= i < 8 implies bits.subrange(8 + 8 * q, 16 + 8 * q)[i]
                == crate::modem::reception::as_signed(encode_block(d))[i] by {
                assert(tx[8 + 8 * q + i] == h[8 * q + i]);
                assert(h.subrange(8 * q, 8 * q + 8)[i] == h[8 * q + i]);
            }
        }
    }
    let hl = h.len() as int;
    lemma_sync_receiving(bits, hl, hl + 7);
    // The closing delimiter.
    lemma_sync_run_step(init, bits, 8 + hl + 7);
    assert(run_sync(init, bits.take(8 + hl + 8)).1.drop_last() =~= run_sync(
        init,
        bits.take(8 + hl + 7),
    ).1);
    let input = bits.subrange(8, 8 + hl + 7);
    let b = bits[8 + hl + 7];
    let whole = bits.subrange(8, 16 + hl);
    assert(input + seq![b] =~= whole);
    assert(input.push(b) =~= whole);
    lemma_last_eight_push(input, b);
    assert(whole.subrange(hl, hl + 8) =~= ISFD@) by {
        assert forall|i: int| 0 <= i < 8 implies whole.subrange(hl, hl + 8)[i] == ISFD@[i] by {
            assert(tx[8 + hl + i] == u[i]);
        }
    }
    assert(signed_as_bits(whole) =~= h + u) by {
        assert forall|i: int| 0 <= i < hl + 8 implies signed_as_bits(whole)[i] == (h + u)[i] by {
            assert(signed_as_bits(bits)[8 + i] == tx[8 + i]);
        }
    }
    lemma_hamming_roundtrip(tb);
    assert(block_correctable(u));
    lemma_decode_append_block(h, u);
    crate::ascii::lemma_numerals_text_bits(t, decode_block(u));
    assert(bits.take(bits.len() as int) =~= bits);
}


proof fn lemma_sync_append(s: SyncState, a: Seq<i8>, b: Seq<i8>)
    ensures
        run_sync(s, a + b).0 == run_sync(run_sync(s, a).0, b).0,
        run_sync(s, a + b).1 == run_sync(s, a).1 + run_sync(run_sync(s, a).0, b).1,
        runs_sync_without_fault(s, a + b) == (runs_sync_without_fault(s, a)
            && runs_sync_without_fault(run_sync(s, a).0, b)),
    decreases b.len(),
{
    if b.len() == 0 {
        assert(a + b =~= a);
        assert(run_sync(s, a).1 + Seq::<SyncEventView>::empty() =~= run_sync(s, a).1);
    } else {
        lemma_sync_append(s, a, b.drop_last());
        assert((a + b).drop_last() =~= a + b.drop_last());
        assert((a + b).last() == b.last());
        let mid = run_sync(s, a).0;
        let e1 = run_sync(s, a).1;
        let e2 = run_sync(mid, b.drop_last()).1;
        let ev = sync_step(run_sync(mid, b.drop_last()).0, seq![b.last()], ModulationMethod::BFSK).1;
        assert((e1 + e2).push(ev) =~= e1 + e2.push(ev));
    }
}

proof fn lemma_sync_len(s: SyncState, a: Seq<i8>)
    ensures
        run_sync(s, a).1.len() == a.len(),
    decreases a.len(),
{
    if a.len() > 0 {
        lemma_sync_len(s, a.drop_last());
    }
}

/// The state in which a text receiver answers a received text.
spec fn answering() -> SyncState {
    SyncState { recent_bin: ISFD@, input_data: Seq::empty(), status: Status::ANSWER }
}

/// After answering, a receiver given the opening delimiter of the next
/// transmission listens through its first `k` bits.
proof fn lemma_sync_rejoin(b: Seq<i8>, k: int)
    requires
        b.len() >= 8,
        forall|i: int| 0 <= i < 8 ==> #[trigger] b[i] == ISFD@[i],
        1 <= k <= 7,
    ensures
        runs_sync_without_fault(answering(), b.take(k)),
        run_sync(answering(), b.take(k)).0 == (SyncState {
            recent_bin: (ISFD@ + b).subrange(k, k + 8),
            input_data: Seq::empty(),
            status: Status::LISTENING,
        }),
    decreases k,
{
    lemma_sync_run_step(answering(), b, k - 1);
    let d = ISFD@;
    assert(d =~= seq![0i8, 0i8, 0i8, 1i8, 0i8, 1i8, 1i8, 0i8]);
    if k == 1 {
        assert(b.take(0) =~= Seq::<i8>::empty());
        assert(run_sync(answering(), b.take(0)).0 == answering());
        assert(sync_window(d, seq![b[0]], ModulationMethod::BFSK) =~= (d + b).subrange(1, 9));
    } else {
        lemma_sync_rejoin(b, k - 1);
        let w = sync_window((d + b).subrange(k - 1, k + 7), seq![b[k - 1]], ModulationMethod::BFSK);
        assert(w =~= (d + b).subrange(k, k + 8));
        assert forall|t: int| 0 <= t < 8 implies #[trigger] w[t] == (if k + t < 8 {
            d[k + t]
        } else {
            d[k + t - 8]
        }) by {
            if k + t >= 8 {
                assert(w[t] == b[k + t - 8]);
            }
        }
        if k == 2 || k == 4 {
            assert(w[1] != d[1]);
        } else if k == 7 {
            assert(w[3] != d[3]);
        } else {
            assert(w[0] != d[0]);
        }
    }
}

/// After answering, a receiver given the opening delimiter of the next
/// transmission is where a receiver that started listening would be.
proof fn lemma_sync_resynchronises(b: Seq<i8>)
    requires
        b.len() >= 8,
        forall|i: int| 0 <= i < 8 ==> #[trigger] b[i] == ISFD@[i],
    ensures
        runs_sync_without_fault(answering(), b.take(8)),
        runs_sync_without_fault(initial_sync(), b.take(8)),
        run_sync(answering(), b.take(8)).0 == run_sync(initial_sync(), b.take(8)).0,
{
    let d = ISFD@;
    lemma_sync_rejoin(b, 7);
    lemma_sync_run_step(answering(), b, 7);
    let w = sync_window((d + b).subrange(7, 15), seq![b[7]], ModulationMethod::BFSK);
    assert(w =~= d) by {
        assert forall|t: int| 0 <= t < 8 implies w[t] == d[t] by {
            assert(w[t] == b[t]);
        }
    }
    lemma_sync_listening(b, 7);
    lemma_sync_run_step(initial_sync(), b, 7);
    assert(sync_window(sync_lead_in().subrange(7, 15), seq![b[7]], ModulationMethod::BFSK)
        =~= ISFD@);
    assert(Seq::<i8>::empty() =~= initial_sync().input_data);
}

/// A text receiver given two transmissions one after the other, each of a
/// non-empty text whose character codes are below 256, reports the first
/// text with the first transmission's last bit and the second text with the
/// last bit, without a panic, and then answers.
#[verifier::spinoff_prover]
#[verifier::rlimit(30)]
pub proof fn lemma_receives_texts_in_turn(t1: Seq<char>, t2: Seq<char>)
    requires
        t1.len() > 0,
        t2.len() > 0,
        forall|i: int| 0 <= i < t1.len() ==> (#[trigger] t1[i] as u32) < 256,
        forall|i: int| 0 <= i < t2.len() ==> (#[trigger] t2[i] as u32) < 256,
    ensures
        ({
            let a = crate::modem::reception::as_signed(crate::transmitter::transmitted_bits(t1));
            let b = crate::modem::reception::as_signed(crate::transmitter::transmitted_bits(t2));
            let r = run_sync(initial_sync(), a + b);
            &&& runs_sync_without_fault(initial_sync(), a + b)
            &&& r.1.len() == a.len() + b.len()
            &&& r.1[a.len() - 1] == SyncEventView::Message(t1)
            &&& r.1.last() == SyncEventView::Message(t2)
            &&& r.0.status == Status::ANSWER
        }),
{
    let init = initial_sync();
    let a = crate::modem::reception::as_signed(crate::transmitter::transmitted_bits(t1));
    let b = crate::modem::reception::as_signed(crate::transmitter::transmitted_bits(t2));
    lemma_receives_transmitted_text(t1);
    lemma_receives_transmitted_text(t2);
    lemma_transmission_starts_with_delimiter(t1);
    lemma_transmission_starts_with_delimiter(t2);
    let ra = run_sync(init, a).0;
    let ea = run_sync(init, a).1;
    lemma_sync_append(init, a, b);
    lemma_sync_len(init, a);
    lemma_sync_len(ra, b);
    assert(run_sync(init, a + b).1[a.len() - 1] == ea[a.len() - 1]);
    assert(ea[a.len() - 1] == ea.last());
    // The state that the first transmission leaves.
    let n = a.len() - 1;
    lemma_sync_run_step(init, a, n);
    assert(a.take(n + 1) == a);
    lemma_message_clears(run_sync(init, a.take(n)).0, seq![a[n]], ModulationMethod::BFSK);
    assert(ra =~= answering());
    // The second transmission's opening delimiter.
    lemma_sync_resynchronises(b);
    let rest = b.subrange(8, b.len() as int);
    assert(b.take(8) + rest =~= b);
    lemma_sync_append(ra, b.take(8), rest);
    lemma_sync_append(init, b.take(8), rest);
    let mid = run_sync(init, b.take(8)).0;
    lemma_sync_len(mid, rest);
    let eb = run_sync(ra, b).1;
    let er = run_sync(mid, rest).1;
    assert(eb.last() == er.last());
    assert(run_sync(init, b).1.last() == er.last());
    assert(run_sync(init, a + b).1.last() == eb.last());
}

/// A transmission is longer than its opening delimiter, with which it
/// starts.
proof fn lemma_transmission_starts_with_delimiter(t: Seq<char>)
    requires
        t.len() > 0,
    ensures
        ({
            let b = crate::modem::reception::as_signed(crate::transmitter::transmitted_bits(t));
            &&& b.len() > 8
            &&& forall|i: int| 0 <= i < 8 ==> #[trigger] b[i] == ISFD@[i]
        }),
{
    let tx = crate::transmitter::transmitted_bits(t);
    let tb = crate::bytes::text_bits(t);
    crate::bytes::lemma_text_bits_len(t);
    lemma_hamming_code_block(tb, 0);
    let u = crate::USFD@;
    assert forall|i: int| 0 <= i < 8 implies #[trigger] crate::modem::reception::as_signed(tx)[i]
        == ISFD@[i] by {
        assert(tx[i] == u[i]);
    }
}

} // verus!
