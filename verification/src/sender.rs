//! The sender's side: every frame goes out as a data packet, followed, when
//! the redundancy budget allows, by the parity of the equation it closes.
use vstd::prelude::*;

use crate::protocol::{
    encode_wire_packet, wire_bytes, PacketKind, RedundancyBudget, WIRE_PACKET_BYTES,
};
use crate::recovery::RecoveryWindow;
use crate::{xor_bytes, xor_in_place, xor_range, Payload};

verus! {

/// How many recent frames the sender remembers: as many as the widest
/// equation (`MAX_FEC_WIDTH`) has members.
pub const HISTORY_FRAMES: usize = 5;

/// Turns media frames into link packets.
pub struct FrameEncoder {
    fec_width: u32,
    history: [Option<(u32, Payload)>; HISTORY_FRAMES],
    redundancy: RedundancyBudget,
}

/// First frame of the equation of `width` frames that ends at `sequence`.
pub open spec fn equation_start_for(width: int, sequence: int) -> int {
    if sequence >= width - 1 {
        sequence - (width - 1)
    } else {
        0
    }
}

impl FrameEncoder {
    /// Frames per equation.
    pub closed spec fn fec_width(&self) -> nat {
        self.fec_width as nat
    }

    /// The frame remembered for `sequence`, if any.
    pub closed spec fn remembered(&self, sequence: int) -> Option<Seq<u8>> {
        match self.history[sequence % (HISTORY_FRAMES as int)] {
            Some((stored, payload)) => if stored == sequence {
                Some(payload@)
            } else {
                None
            },
            None => None,
        }
    }

    /// The sender's redundancy budget.
    pub closed spec fn budget(&self) -> RedundancyBudget {
        self.redundancy
    }

    /// The encoder's invariant.
    pub closed spec fn wf(&self) -> bool {
        &&& self.fec_width >= 1
        &&& self.redundancy.wf()
    }

    /// The frames an equation ending at `sequence` is built from: `payload`
    /// for `sequence` itself, the remembered frames before it.
    pub open spec fn equation_frames(&self, sequence: int, payload: Seq<u8>) -> spec_fn(int) -> Seq<u8> {
        |k: int|
            if k == sequence {
                payload
            } else {
                match self.remembered(k) {
                    Some(p) => p,
                    None => payload,
                }
            }
    }

    /// An encoder for equations of `fec_width` frames, with no history and no
    /// redundancy credit.
    pub fn new(fec_width: u32) -> (encoder: Self)
        requires
            fec_width >= 1,
        ensures
            encoder.wf(),
            encoder.fec_width() == fec_width,
            forall|s: int| #[trigger] encoder.remembered(s) is None,
            encoder.budget().frames() == 0,
            encoder.budget().parities() == 0,
            encoder.budget().available() == 0,
    {
        FrameEncoder {
            fec_width,
            history: [None, None, None, None, None],
            redundancy: RedundancyBudget::default(),
        }
    }

    /// Encodes one frame: its data packet, and the parity packet of the
    /// equation it closes when every earlier member is remembered, the frame
    /// is not the first of the stream, and the budget grants a parity packet
    /// (the budget is asked only in that case).  The frame is then
    /// remembered.
    pub fn encode_frame(&mut self, sequence: u32, payload: &Payload) -> (packets: (
        [u8; WIRE_PACKET_BYTES],
        Option<[u8; WIRE_PACKET_BYTES]>,
    ))
        requires
            old(self).wf(),
        ensures
            final(self).wf(),
            final(self).fec_width() == old(self).fec_width(),
            packets.0@ == wire_bytes(PacketKind::Data, sequence, payload@),
            ({
                let start = equation_start_for(old(self).fec_width() as int, sequence as int);
                let complete = forall|k: int|
                    start <= k < sequence ==> (#[trigger] old(self).remembered(k)) is Some;
                let credit = if old(self).budget().available() + crate::protocol::frame_credit()
                    <= usize::MAX {
                    old(self).budget().available() + crate::protocol::frame_credit()
                } else {
                    usize::MAX as int
                };
                let asked = complete && sequence > 0;
                let granted = asked && credit >= WIRE_PACKET_BYTES;
                &&& packets.1 is Some == granted
                &&& packets.1 matches Some(p) ==> p@ == wire_bytes(
                    PacketKind::Parity,
                    sequence,
                    xor_range(old(self).equation_frames(sequence as int, payload@), start, sequence as int),
                )
                &&& final(self).budget().frames() == old(self).budget().frames() + 1
                &&& final(self).budget().parities() == old(self).budget().parities() + if granted {
                    1int
                } else {
                    0
                }
                &&& final(self).budget().available() == if granted {
                    credit - WIRE_PACKET_BYTES
                } else {
                    credit
                }
                &&& final(self).budget().sent_this_frame() == granted
            }),
            final(self).remembered(sequence as int) == Some(payload@),
            forall|k: int|
                k % (HISTORY_FRAMES as int) != (sequence as int) % (HISTORY_FRAMES as int)
                    ==> #[trigger] final(self).remembered(k) == old(self).remembered(k),
    {
        let ghost frames = self.equation_frames(sequence as int, payload@);
        self.redundancy.begin_frame();
        let data_packet = encode_wire_packet(PacketKind::Data, sequence, payload);
        let equation_start = sequence.saturating_sub(self.fec_width - 1);
        let mut parity = *payload;
        let mut complete = true;
        let mut member = equation_start;
        proof {
            crate::lemma_xor_zero(payload@);
            crate::lemma_xor_commute(payload@, crate::zero_payload());
        }
        while complete && member < sequence
            invariant
                equation_start <= member <= sequence,
                equation_start == equation_start_for(old(self).fec_width() as int, sequence as int),
                self.history == old(self).history,
                self.fec_width == old(self).fec_width,
                frames == old(self).equation_frames(sequence as int, payload@),
                forall|k: int|
                    equation_start <= k < member ==> (#[trigger] old(self).remembered(k)) is Some,
                complete ==> parity@ == xor_bytes(
                    payload@,
                    xor_range(frames, equation_start as int, member - 1),
                ),
                !complete ==> old(self).remembered(member as int) is None && member < sequence,
            decreases sequence - member, if complete {
                1int
            } else {
                0int
            },
        {
            let index = member as usize % HISTORY_FRAMES;
            match &self.history[index] {
                Some((stored, stored_payload)) => {
                    if *stored == member {
                        proof {
                            assert(old(self).remembered(member as int) == Some(stored_payload@));
                            crate::lemma_xor_range_len(frames, equation_start as int, member - 1);
                            crate::lemma_xor_assoc(
                                payload@,
                                xor_range(frames, equation_start as int, member - 1),
                                stored_payload@,
                            );
                        }
                        xor_in_place(&mut parity, stored_payload);
                        member = member + 1;
                    } else {
                        complete = false;
                    }
                },
                None => {
                    complete = false;
                },
            }
        }
        let mut parity_packet = None;
        if complete && sequence > 0 && self.redundancy.consume_parity() {
            proof {
                crate::lemma_xor_range_len(frames, equation_start as int, sequence - 1);
                crate::lemma_xor_commute(payload@, xor_range(frames, equation_start as int, sequence - 1));
            }
            parity_packet = Some(encode_wire_packet(PacketKind::Parity, sequence, &parity));
        }
        let history_index = sequence as usize % HISTORY_FRAMES;
        self.history[history_index] = Some((sequence, *payload));
        (data_packet, parity_packet)
    }
}

/// The encoder and the receiver agree on every equation: when the encoder
/// remembers the media stream's frames before `sequence` and is handed the
/// stream's frame at `sequence`, the parity it computes for `sequence` is the
/// XOR that the receiver's equation of the same width expects.
pub proof fn lemma_parity_matches_stream(
    encoder: &FrameEncoder,
    window: &RecoveryWindow,
    frames: spec_fn(int) -> Seq<u8>,
    sequence: u32,
)
    requires
        window.fec_width() == encoder.fec_width(),
        forall|k: int|
            equation_start_for(encoder.fec_width() as int, sequence as int) <= k < sequence
                ==> #[trigger] encoder.remembered(k) == Some(frames(k)),
    ensures
        window.packet_consistent_with(
            frames,
            sequence as int,
            PacketKind::Parity,
            xor_range(
                encoder.equation_frames(sequence as int, frames(sequence as int)),
                equation_start_for(encoder.fec_width() as int, sequence as int),
                sequence as int,
            ),
        ),
{
    let start = equation_start_for(encoder.fec_width() as int, sequence as int);
    let sent = encoder.equation_frames(sequence as int, frames(sequence as int));
    assert forall|k: int| start <= k <= sequence implies #[trigger] sent(k) == frames(k) by {
        if k < sequence {
            assert(encoder.remembered(k) == Some(frames(k)));
        }
    }
    crate::lemma_xor_range_agree(sent, frames, start, sequence as int);
}

} // verus!
