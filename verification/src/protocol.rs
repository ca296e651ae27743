//! Packet formats, the redundancy budget of the sender and sequence unwrapping
//! at the receiver.
use vstd::prelude::*;

use crate::{Payload, PAYLOAD_BYTES};

verus! {

/// Bytes of a packet exchanged with the media harness: a 4-byte big-endian
/// sequence number followed by the frame.
pub const HARNESS_PACKET_BYTES: usize = 4 + PAYLOAD_BYTES;

/// Bytes of the header of a packet on the lossy link.
pub const WIRE_HEADER_BYTES: usize = 2;

/// Bytes of a packet on the lossy link.
pub const WIRE_PACKET_BYTES: usize = WIRE_HEADER_BYTES + PAYLOAD_BYTES;

/// Sequence numbers on the link are carried modulo this value.
pub const SEQUENCE_MODULUS: u32 = 32768;

/// The link may carry at most this many bytes per byte of media.
pub const MAX_OVERHEAD_MULTIPLIER: usize = 2;

const PARITY_BIT: u16 = 0x8000;

const SEQUENCE_MASK: u16 = 0x7fff;

/// What a packet on the link carries.
#[derive(Clone, Copy, Debug, PartialEq, Eq, Structural)]
pub enum PacketKind {
    /// A media frame itself.
    Data,
    /// The XOR of the frames of one equation, ending at the packet's sequence.
    Parity,
}

/// A decoded packet of the link; the payload borrows from the received bytes.
#[derive(Clone, Copy, Debug)]
pub struct WirePacket<'a> {
    pub kind: PacketKind,
    pub sequence: u16,
    pub payload: &'a Payload,
}

/// The value of four bytes read as a big-endian unsigned integer.
pub open spec fn be_u32(b: Seq<u8>) -> int {
    b[0] * 16777216 + b[1] * 65536 + b[2] * 256 + b[3]
}

/// The four big-endian bytes of `x`.
pub open spec fn u32_be_bytes(x: u32) -> Seq<u8> {
    seq![
        (x / 16777216) as u8,
        ((x / 65536) % 256) as u8,
        ((x / 256) % 256) as u8,
        (x % 256) as u8,
    ]
}

/// The bytes of a harness packet.
pub open spec fn harness_bytes(sequence: u32, payload: Seq<u8>) -> Seq<u8> {
    u32_be_bytes(sequence) + payload
}

/// The header bit that marks a packet's kind.
pub open spec fn kind_bit(kind: PacketKind) -> int {
    match kind {
        PacketKind::Data => 0,
        PacketKind::Parity => 32768,
    }
}

/// The 16-bit header of a link packet: the kind bit above the low 15 bits of
/// the sequence.
pub open spec fn wire_header(kind: PacketKind, sequence: u32) -> int {
    kind_bit(kind) + sequence % 32768
}

/// The bytes of a link packet.
pub open spec fn wire_bytes(kind: PacketKind, sequence: u32, payload: Seq<u8>) -> Seq<u8> {
    seq![(wire_header(kind, sequence) / 256) as u8, (wire_header(kind, sequence) % 256) as u8]
        + payload
}

/// `<&[u8; PAYLOAD_BYTES]>::try_from(&[u8])`: std documents that it succeeds
/// exactly when the slice has `PAYLOAD_BYTES` elements and then views those
/// same elements as an array.  Only that case is admitted here.
#[verifier::external_body]
fn payload_from_slice(bytes: &[u8]) -> (payload: &Payload)
    requires
        bytes@.len() == PAYLOAD_BYTES,
    ensures
        payload@ == bytes@,
{
    bytes.try_into().unwrap()
}

/// Splits a harness packet into its sequence number and frame; `None` unless
/// the packet has exactly `HARNESS_PACKET_BYTES` bytes.
pub fn decode_harness_packet(packet: &[u8]) -> (decoded: Option<(u32, &Payload)>)
    ensures
        decoded is Some <==> packet@.len() == HARNESS_PACKET_BYTES,
        decoded matches Some((sequence, payload)) ==> {
            &&& sequence == be_u32(packet@.subrange(0, 4))
            &&& sequence == ((packet@[0] * 256 + packet@[1]) * 256 + packet@[2]) * 256 + packet@[3]
            &&& payload@ == packet@.subrange(4, HARNESS_PACKET_BYTES as int)
        },
{
    if packet.len() != HARNESS_PACKET_BYTES {
        return None;
    }
    let sequence: u32 = (packet[0] as u32) * 16777216 + (packet[1] as u32) * 65536 + (packet[2] as u32)
        * 256 + packet[3] as u32;
    let payload = payload_from_slice(&packet[4..HARNESS_PACKET_BYTES]);
    Some((sequence, payload))
}

/// Builds a harness packet from a sequence number and a frame.
pub fn encode_harness_packet(sequence: u32, payload: &Payload) -> (packet: [u8; HARNESS_PACKET_BYTES])
    ensures
        packet@ == harness_bytes(sequence, payload@),
        packet@[0] == sequence / 16777216,
        packet@[1] == (sequence / 65536) % 256,
        packet@[2] == (sequence / 256) % 256,
        packet@[3] == sequence % 256,
        ((packet@[0] * 256 + packet@[1]) * 256 + packet@[2]) * 256 + packet@[3] == sequence,
{
    let mut packet = [0u8; HARNESS_PACKET_BYTES];
    packet[0] = (sequence / 16777216) as u8;
    packet[1] = ((sequence / 65536) % 256) as u8;
    packet[2] = ((sequence / 256) % 256) as u8;
    packet[3] = (sequence % 256) as u8;
    let mut i: usize = 0;
    while i < PAYLOAD_BYTES
        invariant
            0 <= i <= PAYLOAD_BYTES,
            packet@.len() == HARNESS_PACKET_BYTES,
            packet@.subrange(0, 4) == u32_be_bytes(sequence),
            forall|j: int| 0 <= j < i ==> packet@[4 + j] == payload@[j],
        decreases PAYLOAD_BYTES - i,
    {
        packet[4 + i] = payload[i];
        i = i + 1;
    }
    assert(packet@ =~= harness_bytes(sequence, payload@));
    packet
}

/// Splits a link packet into kind, 15-bit sequence and frame; `None` unless
/// the packet has exactly `WIRE_PACKET_BYTES` bytes.
pub fn decode_wire_packet(packet: &[u8]) -> (decoded: Option<WirePacket<'_>>)
    ensures
        decoded is Some <==> packet@.len() == WIRE_PACKET_BYTES,
        decoded matches Some(p) ==> {
            let header = packet@[0] * 256 + packet@[1];
            &&& p.kind == (if header < 32768 { PacketKind::Data } else { PacketKind::Parity })
            &&& p.sequence == header % 32768
            &&& p.payload@ == packet@.subrange(2, WIRE_PACKET_BYTES as int)
        },
{
    if packet.len() != WIRE_PACKET_BYTES {
        return None;
    }
    let header: u16 = (packet[0] as u16) * 256 + packet[1] as u16;
    proof {
        assert(header & 0x8000u16 == 0 <==> header < 0x8000u16) by (bit_vector);
        assert(header & 0x7fffu16 == header % 0x8000u16) by (bit_vector);
    }
    let kind = if header & PARITY_BIT == 0 {
        PacketKind::Data
    } else {
        PacketKind::Parity
    };
    let sequence = header & SEQUENCE_MASK;
    let payload = payload_from_slice(&packet[2..WIRE_PACKET_BYTES]);
    Some(WirePacket { kind, sequence, payload })
}

/// Builds a link packet; only the low 15 bits of `sequence` are carried.
pub fn encode_wire_packet(kind: PacketKind, sequence: u32, payload: &Payload) -> (packet: [u8;
    WIRE_PACKET_BYTES])
    ensures
        packet@ == wire_bytes(kind, sequence, payload@),
{
    let kind_bit: u16 = match kind {
        PacketKind::Data => 0,
        PacketKind::Parity => PARITY_BIT,
    };
    let low = #[verifier::truncate] (sequence as u16) & SEQUENCE_MASK;
    proof {
        assert((#[verifier::truncate] (sequence as u16)) & 0x7fffu16 == sequence % 0x8000) by (bit_vector);
        assert(low < 0x8000u16 ==> 0u16 | low == low) by (bit_vector);
        assert(low < 0x8000u16 ==> 0x8000u16 | low == 0x8000u16 + low) by (bit_vector);
    }
    let header = kind_bit | low;
    assert(header == wire_header(kind, sequence));
    let mut packet = [0u8; WIRE_PACKET_BYTES];
    packet[0] = (header / 256) as u8;
    packet[1] = (header % 256) as u8;
    let mut i: usize = 0;
    while i < PAYLOAD_BYTES
        invariant
            0 <= i <= PAYLOAD_BYTES,
            packet@.len() == WIRE_PACKET_BYTES,
            header == wire_header(kind, sequence),
            packet@[0] == (header / 256) as u8,
            packet@[1] == (header % 256) as u8,
            forall|j: int| 0 <= j < i ==> packet@[2 + j] == payload@[j],
        decreases PAYLOAD_BYTES - i,
    {
        packet[2 + i] = payload[i];
        i = i + 1;
    }
    assert(packet@ =~= wire_bytes(kind, sequence, payload@));
    packet
}

/// The four bytes written for a sequence number read back as that number.
pub proof fn lemma_be_u32_round_trip(x: u32)
    ensures
        be_u32(u32_be_bytes(x)) == x,
{
    assert((x / 16777216) * 16777216 + ((x / 65536) % 256) * 65536 + ((x / 256) % 256) * 256 + x
        % 256 == x) by (bit_vector);
    assert(x / 16777216 < 256) by (bit_vector);
}

/// Four header bytes are read most significant first: each byte counts 256
/// times the one after it.
pub proof fn lemma_be_u32_is_big_endian(b: Seq<u8>)
    requires
        b.len() == 4,
    ensures
        be_u32(b) == ((b[0] * 256 + b[1]) * 256 + b[2]) * 256 + b[3],
        be_u32(b) % 256 == b[3],
        be_u32(b) / 16777216 == b[0],
        b[0] == 0 && b[1] == 0 && b[2] == 0 ==> be_u32(b) == b[3],
{
    let v = be_u32(b);
    assert(v == b[3] + 256 * (b[2] + 256 * (b[1] + 256 * b[0])));
    vstd::arithmetic::div_mod::lemma_fundamental_div_mod_converse(
        v,
        256,
        b[2] + 256 * (b[1] + 256 * b[0]),
        b[3] as int,
    );
    vstd::arithmetic::div_mod::lemma_fundamental_div_mod_converse(
        v,
        16777216,
        b[0] as int,
        b[3] + 256 * b[2] + 65536 * b[1],
    );
}

/// The four bytes written for a sequence number are its base-256 digits,
/// most significant first; in particular a number below 256 is written as
/// three zero bytes followed by the number.
pub proof fn lemma_u32_be_bytes_digits(x: u32)
    ensures
        u32_be_bytes(x).len() == 4,
        u32_be_bytes(x)[3] == x % 256,
        u32_be_bytes(x)[0] == x / 16777216,
        ((u32_be_bytes(x)[0] * 256 + u32_be_bytes(x)[1]) * 256 + u32_be_bytes(x)[2]) * 256
            + u32_be_bytes(x)[3] == x,
        x < 256 ==> u32_be_bytes(x) == seq![0u8, 0u8, 0u8, x as u8],
{
    lemma_be_u32_round_trip(x);
    lemma_be_u32_is_big_endian(u32_be_bytes(x));
    if x < 256 {
        assert(x / 16777216 == 0 && (x / 65536) % 256 == 0 && (x / 256) % 256 == 0 && x % 256 == x)
            by (bit_vector)
            requires
                x < 256,
        ;
        assert(u32_be_bytes(x) =~= seq![0u8, 0u8, 0u8, x as u8]);
    }
}

/// Decoding a harness packet gives back the sequence number and the frame it
/// was built from.
pub proof fn lemma_harness_round_trip(sequence: u32, payload: Seq<u8>)
    requires
        payload.len() == PAYLOAD_BYTES,
    ensures
        ({
            let bytes = harness_bytes(sequence, payload);
            &&& bytes.len() == HARNESS_PACKET_BYTES
            &&& be_u32(bytes.subrange(0, 4)) == sequence
            &&& bytes.subrange(4, HARNESS_PACKET_BYTES as int) == payload
        }),
{
    let bytes = harness_bytes(sequence, payload);
    lemma_be_u32_round_trip(sequence);
    assert(bytes.subrange(0, 4) =~= u32_be_bytes(sequence));
    assert(bytes.subrange(4, HARNESS_PACKET_BYTES as int) =~= payload);
}

/// Decoding a link packet gives back its kind, the low 15 bits of its
/// sequence number and its frame.
pub proof fn lemma_wire_round_trip(kind: PacketKind, sequence: u32, payload: Seq<u8>)
    requires
        payload.len() == PAYLOAD_BYTES,
    ensures
        ({
            let bytes = wire_bytes(kind, sequence, payload);
            let header = bytes[0] * 256 + bytes[1];
            &&& bytes.len() == WIRE_PACKET_BYTES
            &&& (header < 32768 <==> kind == PacketKind::Data)
            &&& header % 32768 == sequence % 32768
            &&& bytes.subrange(2, WIRE_PACKET_BYTES as int) == payload
        }),
{
    let bytes = wire_bytes(kind, sequence, payload);
    let h = wire_header(kind, sequence);
    assert(0 <= h < 65536);
    assert(bytes[0] * 256 + bytes[1] == h);
    assert(bytes.subrange(2, WIRE_PACKET_BYTES as int) =~= payload);
}

/// The sender's credit for parity packets.  Every frame earns the bytes that
/// the overhead cap allows beyond its own data packet; a parity packet spends
/// one packet's worth, and at most one is sent per frame.
pub struct RedundancyBudget {
    available_bytes: usize,
    parity_sent_this_frame: bool,
    frames_begun: Ghost<nat>,
    parities_granted: Ghost<nat>,
}

/// Credit earned by every frame.
pub open spec fn frame_credit() -> int {
    PAYLOAD_BYTES * MAX_OVERHEAD_MULTIPLIER - WIRE_PACKET_BYTES
}

impl RedundancyBudget {
    /// Unspent credit, in bytes.
    pub closed spec fn available(&self) -> nat {
        self.available_bytes as nat
    }

    /// Whether a parity packet was granted since the current frame began.
    pub closed spec fn sent_this_frame(&self) -> bool {
        self.parity_sent_this_frame
    }

    /// Frames begun since the budget was created.
    pub closed spec fn frames(&self) -> nat {
        self.frames_begun@
    }

    /// Parity packets granted since the budget was created.
    pub closed spec fn parities(&self) -> nat {
        self.parities_granted@
    }

    /// The credit never exceeds what the frames earned minus what the granted
    /// parity packets spent.
    pub open spec fn wf(&self) -> bool {
        self.available() + self.parities() * WIRE_PACKET_BYTES <= self.frames() * frame_credit()
    }

    /// Starts a frame: earns its credit (saturating) and allows one more parity
    /// packet.
    pub fn begin_frame(&mut self)
        requires
            old(self).wf(),
        ensures
            final(self).wf(),
            final(self).available() == if old(self).available() + frame_credit() <= usize::MAX {
                old(self).available() + frame_credit()
            } else {
                usize::MAX as int
            },
            !final(self).sent_this_frame(),
            final(self).frames() == old(self).frames() + 1,
            final(self).parities() == old(self).parities(),
    {
        let frame_budget = PAYLOAD_BYTES * MAX_OVERHEAD_MULTIPLIER;
        self.available_bytes = self.available_bytes.saturating_add(frame_budget - WIRE_PACKET_BYTES);
        self.parity_sent_this_frame = false;
        self.frames_begun = Ghost(self.frames_begun@ + 1);
        proof {
            let f = old(self).frames();
            assert((f + 1) * 158 == f * 158 + 158) by (nonlinear_arith);
        }
    }

    /// Grants a parity packet when none was granted in this frame and the
    /// credit covers one packet, and spends that credit.
    pub fn consume_parity(&mut self) -> (granted: bool)
        requires
            old(self).wf(),
        ensures
            final(self).wf(),
            granted == (!old(self).sent_this_frame() && old(self).available() >= WIRE_PACKET_BYTES),
            final(self).frames() == old(self).frames(),
            granted ==> {
                &&& final(self).available() == old(self).available() - WIRE_PACKET_BYTES
                &&& final(self).sent_this_frame()
                &&& final(self).parities() == old(self).parities() + 1
            },
            !granted ==> {
                &&& final(self).available() == old(self).available()
                &&& final(self).sent_this_frame() == old(self).sent_this_frame()
                &&& final(self).parities() == old(self).parities()
            },
    {
        if self.parity_sent_this_frame || self.available_bytes < WIRE_PACKET_BYTES {
            return false;
        }
        self.available_bytes = self.available_bytes - WIRE_PACKET_BYTES;
        self.parity_sent_this_frame = true;
        self.parities_granted = Ghost(self.parities_granted@ + 1);
        proof {
            let p = old(self).parities();
            assert((p + 1) * 162 == p * 162 + 162) by (nonlinear_arith);
        }
        true
    }
}

impl Default for RedundancyBudget {
    /// A budget with no credit, before the first frame.
    fn default() -> (budget: Self)
        ensures
            budget.wf(),
            budget.available() == 0,
            !budget.sent_this_frame(),
            budget.frames() == 0,
            budget.parities() == 0,
    {
        RedundancyBudget {
            available_bytes: 0,
            parity_sent_this_frame: false,
            frames_begun: Ghost(0),
            parities_granted: Ghost(0),
        }
    }
}

/// However the grants fall, the data packets of all frames begun plus the
/// granted parity packets never carry more bytes than the overhead cap allows
/// for those frames.
pub proof fn lemma_budget_within_cap(budget: &RedundancyBudget)
    requires
        budget.wf(),
    ensures
        (budget.frames() + budget.parities()) * WIRE_PACKET_BYTES <= budget.frames() * PAYLOAD_BYTES
            * MAX_OVERHEAD_MULTIPLIER,
{
    let f = budget.frames();
    let p = budget.parities();
    assert((f + p) * 162 <= f * 320) by (nonlinear_arith)
        requires
            p * 162 <= f * 158,
    ;
}

/// The state that a budget is in after rounds in each of which one frame
/// begins and one parity packet is asked for: the credit is exactly what the
/// frames earned minus what the grants spent, and the grants are the largest
/// number of parity packets that fits under the overhead cap.
pub open spec fn in_round_schedule(budget: &RedundancyBudget) -> bool {
    let f = budget.frames() as int;
    let p = budget.parities() as int;
    &&& budget.available() == f * frame_credit() - p * WIRE_PACKET_BYTES
    &&& p == (f * frame_credit()) / (WIRE_PACKET_BYTES as int)
}

/// A budget that has not begun a frame is in the round schedule.
pub proof fn lemma_round_schedule_starts(budget: &RedundancyBudget)
    requires
        budget.available() == 0,
        budget.frames() == 0,
        budget.parities() == 0,
    ensures
        in_round_schedule(budget),
{
}

/// `begun` is what `begin_frame` made of `before`, and `after` is what
/// `consume_parity` then made of `begun`, answering `granted`.
pub open spec fn one_round(
    before: &RedundancyBudget,
    begun: &RedundancyBudget,
    after: &RedundancyBudget,
    granted: bool,
) -> bool {
    &&& begun.wf()
    &&& after.wf()
    &&& begun.available() == if before.available() + frame_credit() <= usize::MAX {
        before.available() + frame_credit()
    } else {
        usize::MAX as int
    }
    &&& !begun.sent_this_frame()
    &&& begun.frames() == before.frames() + 1
    &&& begun.parities() == before.parities()
    &&& granted == (!begun.sent_this_frame() && begun.available() >= WIRE_PACKET_BYTES)
    &&& after.frames() == begun.frames()
    &&& granted ==> after.available() == begun.available() - WIRE_PACKET_BYTES
        && after.parities() == begun.parities() + 1
    &&& !granted ==> after.available() == begun.available() && after.parities()
        == begun.parities()
}

/// One round (a frame begins, then one parity packet is asked for) keeps a
/// budget in the round schedule, and grants the packet exactly when the
/// frames begun so far earn one more packet than was granted before.
pub proof fn lemma_round_keeps_schedule(
    before: &RedundancyBudget,
    begun: &RedundancyBudget,
    after: &RedundancyBudget,
    granted: bool,
)
    requires
        before.wf(),
        in_round_schedule(before),
        one_round(before, begun, after, granted),
    ensures
        in_round_schedule(after),
        after.frames() == before.frames() + 1,
        granted <==> after.parities() == before.parities() + 1,
        !granted <==> after.parities() == before.parities(),
        (after.frames() + after.parities()) * WIRE_PACKET_BYTES <= after.frames() * PAYLOAD_BYTES
            * MAX_OVERHEAD_MULTIPLIER,
        (after.frames() + after.parities() + 1) * WIRE_PACKET_BYTES > after.frames()
            * PAYLOAD_BYTES * MAX_OVERHEAD_MULTIPLIER,
{
    let f = before.frames() as int;
    let p = before.parities() as int;
    let a = before.available() as int;
    assert(f * 158 == p * 162 + a);
    vstd::arithmetic::div_mod::lemma_fundamental_div_mod(f * 158, 162);
    assert(0 <= a < 162);
    assert((f + 1) * 158 == f * 158 + 158) by (nonlinear_arith);
    let f1 = f + 1;
    if a + 158 >= 162 {
        assert(f1 * 158 == (p + 1) * 162 + (a + 158 - 162)) by (nonlinear_arith)
            requires
                f * 158 == p * 162 + a,
                f1 == f + 1,
        ;
        vstd::arithmetic::div_mod::lemma_fundamental_div_mod_converse(
            f1 * 158,
            162,
            p + 1,
            a + 158 - 162,
        );
        assert((f1 + p + 1) * 162 <= f1 * 320) by (nonlinear_arith)
            requires
                f1 * 158 == (p + 1) * 162 + (a + 158 - 162),
                0 <= a + 158 - 162,
        ;
        assert((f1 + p + 2) * 162 > f1 * 320) by (nonlinear_arith)
            requires
                f1 * 158 == (p + 1) * 162 + (a + 158 - 162),
                a + 158 - 162 < 162,
        ;
    } else {
        assert(f1 * 158 == p * 162 + (a + 158)) by (nonlinear_arith)
            requires
                f * 158 == p * 162 + a,
                f1 == f + 1,
        ;
        vstd::arithmetic::div_mod::lemma_fundamental_div_mod_converse(
            f1 * 158,
            162,
            p,
            a + 158,
        );
        assert((f1 + p) * 162 <= f1 * 320) by (nonlinear_arith)
            requires
                f1 * 158 == p * 162 + (a + 158),
                0 <= a + 158,
        ;
        assert((f1 + p + 1) * 162 > f1 * 320) by (nonlinear_arith)
            requires
                f1 * 158 == p * 162 + (a + 158),
                a + 158 < 162,
        ;
    }
}

/// How many of `grants` are `true`.
pub open spec fn granted_count(grants: Seq<bool>) -> nat
    decreases grants.len(),
{
    if grants.len() == 0 {
        0
    } else {
        granted_count(grants.drop_last()) + if grants.last() {
            1nat
        } else {
            0nat
        }
    }
}

/// `n` rounds (each: `begin_frame`, then `consume_parity`) on a budget that
/// starts fresh grant exactly `(158 * n) / 162` parity packets: the largest
/// count for which the data and parity packets of `n` frames stay under the
/// overhead cap.  `budgets[i]` is the budget before round `i`, `begun[i]` the
/// budget after its `begin_frame`, `grants[i]` the answer of its
/// `consume_parity`.
pub proof fn lemma_rounds_grant_floor(
    budgets: Seq<RedundancyBudget>,
    begun: Seq<RedundancyBudget>,
    grants: Seq<bool>,
)
    requires
        budgets.len() == grants.len() + 1,
        begun.len() == grants.len(),
        budgets[0].wf(),
        budgets[0].available() == 0,
        budgets[0].frames() == 0,
        budgets[0].parities() == 0,
        forall|i: int|
            0 <= i < grants.len() ==> #[trigger] one_round(
                &budgets[i],
                &begun[i],
                &budgets[i + 1],
                grants[i],
            ),
    ensures
        ({
            let n = grants.len() as int;
            let p = granted_count(grants) as int;
            &&& p == (n * frame_credit()) / (WIRE_PACKET_BYTES as int)
            &&& budgets[n].parities() == p
            &&& (n + p) * WIRE_PACKET_BYTES <= n * PAYLOAD_BYTES * MAX_OVERHEAD_MULTIPLIER
            &&& (n + p + 1) * WIRE_PACKET_BYTES > n * PAYLOAD_BYTES * MAX_OVERHEAD_MULTIPLIER
        }),
{
    lemma_rounds_prefix(budgets, begun, grants, grants.len() as int);
    let n = grants.len() as int;
    assert(grants.take(n) =~= grants);
    if n == 0 {
        assert((0int * frame_credit()) / (WIRE_PACKET_BYTES as int) == 0);
    } else {
        lemma_rounds_prefix(budgets, begun, grants, n - 1);
        assert(one_round(&budgets[n - 1], &begun[n - 1], &budgets[n - 1 + 1], grants[n - 1]));
        lemma_round_keeps_schedule(&budgets[n - 1], &begun[n - 1], &budgets[n], grants[n - 1]);
    }
}

proof fn lemma_rounds_prefix(
    budgets: Seq<RedundancyBudget>,
    begun: Seq<RedundancyBudget>,
    grants: Seq<bool>,
    k: int,
)
    requires
        budgets.len() == grants.len() + 1,
        begun.len() == grants.len(),
        budgets[0].wf(),
        budgets[0].available() == 0,
        budgets[0].frames() == 0,
        budgets[0].parities() == 0,
        forall|i: int|
            0 <= i < grants.len() ==> #[trigger] one_round(
                &budgets[i],
                &begun[i],
                &budgets[i + 1],
                grants[i],
            ),
        0 <= k <= grants.len(),
    ensures
        budgets[k].wf(),
        in_round_schedule(&budgets[k]),
        budgets[k].frames() == k,
        budgets[k].parities() == granted_count(grants.take(k)),
    decreases k,
{
    if k == 0 {
        lemma_round_schedule_starts(&budgets[0]);
        assert(grants.take(0).len() == 0);
    } else {
        lemma_rounds_prefix(budgets, begun, grants, k - 1);
        assert(one_round(&budgets[k - 1], &begun[k - 1], &budgets[k - 1 + 1], grants[k - 1]));
        lemma_round_keeps_schedule(&budgets[k - 1], &begun[k - 1], &budgets[k], grants[k - 1]);
        assert(grants.take(k).drop_last() =~= grants.take(k - 1));
        assert(grants.take(k).last() == grants[k - 1]);
    }
}

/// An unwrapper that has seen no sequence yet takes the first wire sequence
/// as it is: the result is its low 15 bits, with nothing added.
pub proof fn lemma_first_unwrap_keeps_low_bits(wire_sequence: u16)
    ensures
        unwrapped_sequence(None, wire_sequence) == wire_sequence % 32768,
        wire_sequence < 32768 ==> unwrapped_sequence(None, wire_sequence) == wire_sequence,
{
}

/// Distance between two integers.
pub open spec fn distance(a: int, b: int) -> int {
    if a >= b {
        a - b
    } else {
        b - a
    }
}

/// Of the three integers congruent to `low` modulo `SEQUENCE_MODULUS` in the
/// block of `newest` and its two neighbours, the first (lowest) non-negative
/// one that lies closest to `newest`.
pub open spec fn closest_candidate(newest: u32, low: int) -> int {
    let base = newest - newest % 32768;
    let below = base + low - 32768;
    let same = base + low;
    let above = base + low + 32768;
    if below >= 0 && distance(below, newest as int) <= distance(same, newest as int) && distance(
        below,
        newest as int,
    ) <= distance(above, newest as int) {
        below
    } else if distance(same, newest as int) <= distance(above, newest as int) {
        same
    } else {
        above
    }
}

/// The full sequence number that `unwrap` gives a 15-bit wire sequence when
/// `newest` is the newest number seen so far.
pub open spec fn unwrapped_sequence(newest: Option<u32>, wire_sequence: u16) -> int {
    let low = wire_sequence % 32768;
    match newest {
        None => low as int,
        Some(n) => closest_candidate(n, low as int) % 0x1_0000_0000,
    }
}

/// Restores full sequence numbers from the 15 bits carried on the link.
pub struct SequenceUnwrapper {
    newest: Option<u32>,
}

impl SequenceUnwrapper {
    /// The newest full sequence number seen so far.
    pub closed spec fn newest(&self) -> Option<u32> {
        self.newest
    }

    /// Maps a wire sequence to the full sequence number closest to the newest
    /// one seen (the first wire sequence is taken as is) and remembers the
    /// result when it is newer.
    pub fn unwrap(&mut self, wire_sequence: u16) -> (sequence: u32)
        ensures
            sequence == unwrapped_sequence(old(self).newest(), wire_sequence),
            old(self).newest() is None ==> sequence == wire_sequence % 32768,
            sequence % 32768 == wire_sequence % 32768,
            final(self).newest() == match old(self).newest() {
                None => Some(sequence),
                Some(n) => if sequence > n {
                    Some(sequence)
                } else {
                    Some(n)
                },
            },
    {
        let low = (wire_sequence & SEQUENCE_MASK) as u32;
        proof {
            assert(wire_sequence & 0x7fffu16 == wire_sequence % 0x8000) by (bit_vector);
        }
        let newest = match self.newest {
            None => {
                self.newest = Some(low);
                return low;
            },
            Some(newest) => newest,
        };
        let modulus = SEQUENCE_MODULUS as i64;
        let block = newest & !(SEQUENCE_MODULUS - 1);
        proof {
            assert(newest & !(32767u32) == newest - newest % 32768) by (bit_vector);
        }
        let base = block as i64;
        let low = low as i64;
        let newest_i64 = newest as i64;
        let below = base + low - modulus;
        let same = base + low;
        let above = base + low + modulus;
        let below_distance = if below >= newest_i64 {
            below - newest_i64
        } else {
            newest_i64 - below
        };
        let same_distance = if same >= newest_i64 {
            same - newest_i64
        } else {
            newest_i64 - same
        };
        let above_distance = if above >= newest_i64 {
            above - newest_i64
        } else {
            newest_i64 - above
        };
        // `same` and `above` are never negative, so a closest candidate always exists.
        let closest = if below >= 0 && below_distance <= same_distance && below_distance
            <= above_distance {
            below
        } else if same_distance <= above_distance {
            same
        } else {
            above
        };
        let sequence = (closest % 0x1_0000_0000) as u32;
        proof {
            lemma_candidate_congruent(newest, low as int);
        }
        if sequence > newest {
            self.newest = Some(sequence);
        }
        sequence
    }
}

impl Default for SequenceUnwrapper {
    /// An unwrapper that has seen no sequence yet.
    fn default() -> (unwrapper: Self)
        ensures
            unwrapper.newest() is None,
    {
        SequenceUnwrapper { newest: None }
    }
}

/// Every candidate, and its remainder modulo 2^32, agrees with the wire
/// sequence in the low 15 bits.
proof fn lemma_candidate_congruent(newest: u32, low: int)
    requires
        0 <= low < 32768,
    ensures
        closest_candidate(newest, low) >= 0,
        (closest_candidate(newest, low) % 0x1_0000_0000) % 32768 == low,
{
    let c = closest_candidate(newest, low);
    let q: int = newest as int / 32768;
    assert(newest - newest % 32768 == q * 32768) by (nonlinear_arith)
        requires
            q == newest as int / 32768,
    ;
    let k: int = if c == q * 32768 + low - 32768 {
        q - 1
    } else if c == q * 32768 + low {
        q
    } else {
        q + 1
    };
    assert(c == k * 32768 + low);
    assert(k >= 0);
    assert((k * 32768 + low) % 0x1_0000_0000 % 32768 == low) by (nonlinear_arith)
        requires
            k >= 0,
            0 <= low < 32768,
    {
        let m = (k * 32768 + low) % 0x1_0000_0000;
        let d = (k * 32768 + low) / 0x1_0000_0000;
        assert(k * 32768 + low == d * 0x1_0000_0000 + m);
        assert(m == (k - d * 131072) * 32768 + low);
        vstd::arithmetic::div_mod::lemma_mod_multiples_vanish(k - d * 131072, low, 32768);
        vstd::arithmetic::div_mod::lemma_small_mod(low as nat, 32768);
    }
}

/// When the true sequence number lies less than half the modulus away from the
/// newest one seen, unwrapping its low 15 bits gives it back exactly.
pub proof fn lemma_unwrap_recovers_nearby(newest: u32, sequence: u32)
    requires
        distance(sequence as int, newest as int) < 16384,
    ensures
        unwrapped_sequence(Some(newest), (sequence % 32768) as u16) == sequence,
{
    let s = sequence as int;
    let n = newest as int;
    let low = s % 32768;
    let qs = s / 32768;
    let qn = n / 32768;
    assert(s == qs * 32768 + low && 0 <= low < 32768) by (nonlinear_arith)
        requires
            qs == s / 32768,
            low == s % 32768,
            s >= 0,
    ;
    assert(n - n % 32768 == qn * 32768 && qn * 32768 <= n < qn * 32768 + 32768) by (nonlinear_arith)
        requires
            qn == n / 32768,
            n >= 0,
    ;
    let j = qs - qn;
    assert(-1 <= j <= 1) by (nonlinear_arith)
        requires
            j == qs - qn,
            s == qs * 32768 + low,
            0 <= low < 32768,
            qn * 32768 <= n < qn * 32768 + 32768,
            -16384 < s - n < 16384,
    ;
    assert(((sequence % 32768) as u16) % 32768 == low);
    let base = n - n % 32768;
    assert(base == qn * 32768);
    let below = base + low - 32768;
    let same = base + low;
    let above = base + low + 32768;
    assert(s == base + low + j * 32768);
    assert(s % 0x1_0000_0000 == s);
    if j == -1 {
        assert(closest_candidate(newest, low) == below);
    } else if j == 0 {
        assert(closest_candidate(newest, low) == same);
    } else {
        assert(closest_candidate(newest, low) == above);
    }
}

/// `closest_candidate` is the nearest number to `newest` that is not
/// negative and has the low 15 bits `low`; of two equally near ones it is
/// the lower.
pub proof fn lemma_closest_candidate_is_nearest(newest: u32, low: int)
    requires
        0 <= low < 32768,
    ensures
        closest_candidate(newest, low) >= 0,
        closest_candidate(newest, low) % 32768 == low,
        forall|x: int|
            x >= 0 && x % 32768 == low ==> distance(closest_candidate(newest, low), newest as int)
                <= #[trigger] distance(x, newest as int),
        forall|x: int|
            x >= 0 && x % 32768 == low && #[trigger] distance(x, newest as int) == distance(
                closest_candidate(newest, low),
                newest as int,
            ) ==> closest_candidate(newest, low) <= x,
        newest >= 16384 ==> distance(closest_candidate(newest, low), newest as int) <= 16384,
{
    let n = newest as int;
    let c = closest_candidate(newest, low);
    let qn = n / 32768;
    assert(n - n % 32768 == qn * 32768 && qn * 32768 <= n < qn * 32768 + 32768) by (nonlinear_arith)
        requires
            qn == n / 32768,
            n >= 0,
    ;
    let base = qn * 32768;
    let below = base + low - 32768;
    let same = base + low;
    let above = base + low + 32768;
    lemma_candidate_congruent(newest, low);
    assert(c % 0x1_0000_0000 % 32768 == low);
    assert(c % 32768 == low) by {
        assert(c == below || c == same || c == above);
        assert(below % 32768 == low && same % 32768 == low && above % 32768 == low) by (nonlinear_arith)
            requires
                below == qn * 32768 + low - 32768,
                same == qn * 32768 + low,
                above == qn * 32768 + low + 32768,
                0 <= low < 32768,
        ;
    }
    assert forall|x: int| x >= 0 && x % 32768 == low implies distance(c, n) <= #[trigger] distance(
        x,
        n,
    ) && (distance(x, n) == distance(c, n) ==> c <= x) by {
        let q = x / 32768;
        assert(x == q * 32768 + low) by (nonlinear_arith)
            requires
                q == x / 32768,
                x % 32768 == low,
                x >= 0,
        ;
        if q <= qn - 2 {
            assert(q * 32768 <= qn * 32768 - 65536) by (nonlinear_arith)
                requires
                    q <= qn - 2,
            ;
        } else if q >= qn + 2 {
            assert(q * 32768 >= qn * 32768 + 65536) by (nonlinear_arith)
                requires
                    q >= qn + 2,
            ;
        } else if q == qn - 1 {
            assert(x == below);
        } else if q == qn {
            assert(x == same);
        } else {
            assert(q == qn + 1);
            assert(x == above);
        }
    }
    if newest >= 16384 {
        assert(below % 32768 == low && same % 32768 == low && above % 32768 == low) by (nonlinear_arith)
            requires
                below == qn * 32768 + low - 32768,
                same == qn * 32768 + low,
                above == qn * 32768 + low + 32768,
                0 <= low < 32768,
        ;
        if same > n + 16384 {
            assert(distance(below, n) <= 16384);
        } else if same < n - 16384 {
            assert(distance(above, n) <= 16384);
        } else {
            assert(distance(same, n) <= 16384);
        }
    }
}

} // verus!
