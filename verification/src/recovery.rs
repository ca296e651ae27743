//! The receiver's window of recent frames and parity equations, solved by
//! peeling: whenever an equation misses exactly one frame that is not yet too
//! old, that frame is restored and delivered.
use vstd::prelude::*;

use crate::protocol::{PacketKind, WirePacket};
use crate::{
    next_power_of_two, next_power_of_two_spec, xor_bytes, xor_in_place, xor_range, zero_payload,
    Payload, PAYLOAD_BYTES,
};
use vstd::arithmetic::power2::pow2;

verus! {

/// What the window holds for one sequence number: its frame, once known, and
/// the parity of the equation that ends at it.
struct Slot {
    sequence: u32,
    occupied: bool,
    delivered: bool,
    has_data: bool,
    has_parity: bool,
    data: Payload,
    parity: Payload,
}

impl Slot {
    /// An unoccupied slot.
    fn default() -> (slot: Self)
        ensures
            slot.sequence == 0,
            !slot.occupied,
            !slot.delivered,
            !slot.has_data,
            !slot.has_parity,
            slot.data@ == zero_payload(),
            slot.parity@ == zero_payload(),
    {
        let slot = Self {
            sequence: 0,
            occupied: false,
            delivered: false,
            has_data: false,
            has_parity: false,
            data: [0;PAYLOAD_BYTES],
            parity: [0;PAYLOAD_BYTES],
        };
        assert(slot.data@ =~= zero_payload());
        assert(slot.parity@ =~= zero_payload());
        slot
    }
}

/// The number of slots a window asked for `capacity` slots gets: at least
/// two, rounded up to a power of two.
pub open spec fn window_capacity(capacity: usize) -> int {
    next_power_of_two_spec(if capacity < 2 {
        2
    } else {
        capacity as nat
    }) as int
}

/// The equation width a window gets: `fec_width` clamped to two and the
/// window's capacity.
pub open spec fn window_width(capacity: usize, fec_width: u32) -> int {
    if fec_width < 2 {
        2
    } else if fec_width > window_capacity(capacity) {
        window_capacity(capacity)
    } else {
        fec_width as int
    }
}

/// A window asked for `capacity` slots gets at least that many (and at least
/// two), and keeps any requested equation width from two up to its capacity
/// unchanged: it solves exactly the equations that an encoder of that width
/// forms.
pub proof fn lemma_window_keeps_requested_width(capacity: usize, fec_width: u32)
    ensures
        window_capacity(capacity) >= capacity,
        window_capacity(capacity) >= 2,
        2 <= fec_width <= window_capacity(capacity) ==> window_width(capacity, fec_width)
            == fec_width,
        2 <= window_width(capacity, fec_width) <= window_capacity(capacity),
{
    let n: nat = if capacity < 2 {
        2
    } else {
        capacity as nat
    };
    crate::lemma_power_of_two_from_bounds(n, 1);
}

/// A ring of recent frames and equations, indexed by sequence number modulo
/// its power-of-two capacity.
pub struct RecoveryWindow {
    slots: Vec<Slot>,
    mask: usize,
    fec_width: u32,
    newest: Option<u32>,
    /// Ends of the equations still to be examined; kept between calls only
    /// so that its storage is reused.
    work: Vec<u32>,
    log2_capacity: Ghost<nat>,
}

impl RecoveryWindow {
    /// Number of slots.
    pub closed spec fn capacity(&self) -> nat {
        self.slots.len() as nat
    }

    /// Number of frames in every equation (fewer near sequence 0).
    pub closed spec fn fec_width(&self) -> nat {
        self.fec_width as nat
    }

    /// The newest sequence number accepted so far.
    pub closed spec fn newest(&self) -> Option<u32> {
        self.newest
    }

    spec fn index_of(&self, s: int) -> int {
        s % (self.slots.len() as int)
    }

    /// Whether the window holds a slot for sequence `s`.
    pub closed spec fn live(&self, s: int) -> bool {
        &&& 0 <= s <= u32::MAX
        &&& self.slots.len() > 0
        &&& self.slots@[self.index_of(s)].occupied
        &&& self.slots@[self.index_of(s)].sequence == s
    }

    /// The frame the window knows for sequence `s`.
    pub closed spec fn data_at(&self, s: int) -> Option<Seq<u8>> {
        if self.live(s) && self.slots@[self.index_of(s)].has_data {
            Some(self.slots@[self.index_of(s)].data@)
        } else {
            None
        }
    }

    /// The parity of the equation ending at `s`, if the window holds it.
    pub closed spec fn parity_at(&self, s: int) -> Option<Seq<u8>> {
        if self.live(s) && self.slots@[self.index_of(s)].has_parity {
            Some(self.slots@[self.index_of(s)].parity@)
        } else {
            None
        }
    }

    /// Whether the frame for `s` has been handed out.
    pub closed spec fn delivered_at(&self, s: int) -> bool {
        self.live(s) && self.slots@[self.index_of(s)].delivered
    }

    /// A sequence number is stale once the newest accepted one is at least a
    /// capacity ahead of it (the sum saturating at `u32::MAX`); a stale frame
    /// is never stored or restored again.
    pub open spec fn stale(&self, s: int) -> bool {
        match self.newest() {
            Some(n) => (if s + self.capacity() > u32::MAX {
                u32::MAX as int
            } else {
                s + self.capacity()
            }) <= n,
            None => false,
        }
    }

    /// First frame of the equation that ends at `e`.
    pub open spec fn equation_start(&self, e: int) -> int {
        if e >= self.fec_width() - 1 {
            e - (self.fec_width() - 1)
        } else {
            0
        }
    }

    /// The equation ending at `e` is held and misses exactly the frame `m`,
    /// which is not stale.
    pub open spec fn solvable(&self, e: int, m: int) -> bool {
        &&& self.parity_at(e) is Some
        &&& self.equation_start(e) <= m <= e
        &&& self.data_at(m) is None
        &&& !self.stale(m)
        &&& forall|k: int|
            self.equation_start(e) <= k <= e && k != m ==> (#[trigger] self.data_at(k)) is Some
    }

    /// No equation is left that could restore a frame.
    pub open spec fn peeling_closed(&self) -> bool {
        forall|e: int, m: int| !#[trigger] self.solvable(e, m)
    }

    /// Everything the window holds agrees with the media stream `frames`:
    /// each frame is the stream's frame, each parity the XOR of the stream's
    /// frames in its equation.
    pub open spec fn consistent_with(&self, frames: spec_fn(int) -> Seq<u8>) -> bool {
        &&& forall|k: int| (#[trigger] frames(k)).len() == PAYLOAD_BYTES
        &&& forall|s: int| #[trigger] self.data_at(s) matches Some(p) ==> p == frames(s)
        &&& forall|e: int| #[trigger]
            self.parity_at(e) matches Some(p) ==> p == xor_range(frames, self.equation_start(e), e)
    }

    /// The frame known for `k` once the first `i` entries of `fresh` (each a
    /// sequence number with its frame) are added to what `self` knows.
    pub open spec fn known_after(&self, fresh: Seq<(u32, Payload)>, i: int, k: int) -> Option<
        Seq<u8>,
    >
        decreases i,
    {
        if i <= 0 {
            self.data_at(k)
        } else if fresh[i - 1].0 == k {
            Some(fresh[i - 1].1@)
        } else {
            self.known_after(fresh, i - 1, k)
        }
    }

    /// `known_after`, with the zero frame where nothing is known.
    pub open spec fn known_after_or_zero(&self, fresh: Seq<(u32, Payload)>, i: int) -> spec_fn(
        int,
    ) -> Seq<u8> {
        |k: int|
            match self.known_after(fresh, i, k) {
                Some(p) => p,
                None => zero_payload(),
            }
    }

    /// Entry `i` of the frames `fresh` handed out in one call was restored by
    /// peeling from what was known before it: an equation that `after` holds
    /// contains it, it was not known before, every other member was, and its
    /// frame is the equation's parity XOR those members.
    pub open spec fn restored_by_peeling(
        &self,
        after: &Self,
        fresh: Seq<(u32, Payload)>,
        i: int,
    ) -> bool {
        let s = fresh[i].0 as int;
        exists|e: int|
            #![trigger after.parity_at(e)]
            {
                &&& after.parity_at(e) is Some
                &&& self.equation_start(e) <= s <= e
                &&& self.known_after(fresh, i, s) is None
                &&& forall|k: int|
                    self.equation_start(e) <= k <= e && k != s ==> (#[trigger] self.known_after(
                        fresh,
                        i,
                        k,
                    )) is Some
                &&& fresh[i].1@ == xor_bytes(
                    after.parity_at(e)->0,
                    xor_range(self.known_after_or_zero(fresh, i), self.equation_start(e), e),
                )
            }
    }

    /// What one call of `ingest` does, from `self` to `after`, for a packet
    /// of this kind, sequence and payload that hands out `fresh`, in order:
    ///
    /// - a packet for a stale sequence changes nothing and hands out nothing;
    /// - otherwise the newest sequence is raised to it, and the packet is
    ///   stored (a frame or parity already held is kept);
    /// - the window learns as `learns` says, and a parity appears only for
    ///   the packet;
    /// - `fresh` holds exactly the frames that became known, each once and
    ///   with its frame: first the packet's frame when it is newly known,
    ///   then the restored frames in the order they were restored, each by
    ///   peeling from what was known before it;
    /// - afterwards no equation can restore a frame;
    /// - every media stream that agrees with `self` and the packet agrees
    ///   with `after`.
    pub open spec fn ingested(
        &self,
        after: &Self,
        sequence: u32,
        kind: PacketKind,
        payload: Seq<u8>,
        fresh: Seq<(u32, Payload)>,
    ) -> bool {
        let s = sequence as int;
        let first = if kind == PacketKind::Data && !self.stale(s) && self.data_at(s) is None {
            1int
        } else {
            0int
        };
        &&& after.peeling_closed()
        &&& self.learns(after)
        &&& after.newest() == if self.stale(s) {
            self.newest()
        } else {
            Some(raised_newest(self.newest(), sequence))
        }
        &&& self.stale(s) ==> {
            &&& fresh.len() == 0
            &&& forall|t: int| #[trigger] after.data_at(t) == self.data_at(t)
            &&& forall|t: int| #[trigger] after.parity_at(t) == self.parity_at(t)
        }
        &&& !self.stale(s) && kind == PacketKind::Data ==> after.data_at(s) == if self.data_at(
            s,
        ) is Some {
            self.data_at(s)
        } else {
            Some(payload)
        }
        &&& !self.stale(s) && kind == PacketKind::Parity ==> after.parity_at(s) == if self.parity_at(
            s,
        ) is Some {
            self.parity_at(s)
        } else {
            Some(payload)
        }
        &&& forall|t: int| #[trigger]
            after.parity_at(t) is Some ==> after.parity_at(t) == self.parity_at(t) || (t == s
                && kind == PacketKind::Parity)
        &&& forall|i: int|
            0 <= i < fresh.len() ==> self.data_at(#[trigger] fresh[i].0 as int) is None
                && after.data_at(fresh[i].0 as int) == Some(fresh[i].1@)
        &&& forall|i: int, j: int|
            0 <= i < j < fresh.len() ==> #[trigger] fresh[i].0 != #[trigger] fresh[j].0
        &&& forall|t: int| #[trigger]
            after.data_at(t) is Some && self.data_at(t) is None ==> exists|i: int|
                0 <= i < fresh.len() && #[trigger] fresh[i].0 == t
        &&& fresh.len() >= first
        &&& first == 1 ==> fresh[0].0 == sequence && fresh[0].1@ == payload
        &&& forall|i: int|
            first <= i < fresh.len() ==> #[trigger] self.restored_by_peeling(after, fresh, i)
        &&& forall|frames: spec_fn(int) -> Seq<u8>|
            #[trigger] self.consistent_with(frames) && self.packet_consistent_with(
                frames,
                s,
                kind,
                payload,
            ) ==> after.consistent_with(frames)
    }

    /// A packet with this kind, sequence and payload agrees with `frames`.
    pub open spec fn packet_consistent_with(
        &self,
        frames: spec_fn(int) -> Seq<u8>,
        sequence: int,
        kind: PacketKind,
        payload: Seq<u8>,
    ) -> bool {
        match kind {
            PacketKind::Data => payload == frames(sequence),
            PacketKind::Parity => payload == xor_range(frames, self.equation_start(sequence), sequence),
        }
    }

    /// The ring's shape: a power-of-two number of slots with its mask, each
    /// occupied slot at the index of its sequence, no sequence newer than the
    /// newest, and nothing marked delivered that has no frame.
    spec fn layout_ok(&self) -> bool {
        &&& self.slots.len() == pow2(self.log2_capacity@)
        &&& self.log2_capacity@ < 32
        &&& 2 <= self.slots.len() <= 0x8000_0000
        &&& self.mask == self.slots.len() - 1
        &&& 2 <= self.fec_width <= self.slots.len()
        &&& forall|i: int|
            0 <= i < self.slots.len() && #[trigger] self.slots@[i].occupied ==> {
                &&& (self.slots@[i].sequence as int) % (self.slots.len() as int) == i
                &&& self.newest matches Some(n) && self.slots@[i].sequence <= n
                &&& self.slots@[i].delivered ==> self.slots@[i].has_data
            }
    }

    /// Every frame the window knows has been delivered.
    spec fn all_known_delivered(&self) -> bool {
        forall|i: int|
            0 <= i < self.slots.len() && #[trigger] self.slots@[i].occupied
                ==> (self.slots@[i].has_data ==> self.slots@[i].delivered)
    }

    /// The window's invariant between calls.
    pub closed spec fn wf(&self) -> bool {
        self.layout_ok() && self.all_known_delivered()
    }

    /// A window of `capacity` slots (at least two, rounded up to a power of
    /// two) solving equations of `fec_width` frames (clamped to two and the
    /// capacity).  A capacity above 2^31 is not accepted: it would round to a
    /// slot count that does not fit the `u32` bound the width is clamped to.
    pub fn new(capacity: usize, fec_width: u32) -> (window: Self)
        requires
            capacity <= 0x8000_0000,
        ensures
            window.wf(),
            window.peeling_closed(),
            window.capacity() == window_capacity(capacity),
            window.capacity() <= 0x8000_0000,
            window.fec_width() == window_width(capacity, fec_width),
            window.capacity() >= capacity,
            window.capacity() >= 2,
            2 <= fec_width <= window.capacity() ==> window.fec_width() == fec_width,
            fec_width < 2 ==> window.fec_width() == 2,
            fec_width > window.capacity() ==> window.fec_width() == window.capacity(),
            window.newest() is None,
            forall|s: int| #[trigger] window.data_at(s) is None,
            forall|s: int| #[trigger] window.parity_at(s) is None,
    {
        proof {
            lemma_window_keeps_requested_width(capacity, fec_width);
        }
        let requested = if capacity < 2 {
            2
        } else {
            capacity
        };
        let (capacity, log2) = next_power_of_two(requested);
        proof {
            vstd::arithmetic::power2::lemma2_to64();
            if log2@ > 32 {
                vstd::arithmetic::power2::lemma_pow2_strictly_increases(32, log2@);
            }
            if log2@ < 31 {
                vstd::arithmetic::power2::lemma_pow2_strictly_increases(log2@, 31);
            }
            assert(log2@ < 32);
            assert(capacity <= 0x8000_0000);
        }
        let fec_width = if fec_width < 2 {
            2
        } else if fec_width > capacity as u32 {
            capacity as u32
        } else {
            fec_width
        };
        let mut slots: Vec<Slot> = Vec::new();
        while slots.len() < capacity
            invariant
                slots.len() <= capacity,
                forall|i: int| 0 <= i < slots.len() ==> !(#[trigger] slots@[i]).occupied,
            decreases capacity - slots.len(),
        {
            slots.push(Slot::default());
        }
        // Room for every equation of every slot, when that size is representable.
        let work = match (capacity + 1).checked_mul(fec_width as usize) {
            Some(room) => Vec::with_capacity(room),
            None => Vec::new(),
        };
        let window = Self {
            slots,
            mask: capacity - 1,
            fec_width,
            newest: None,
            work,
            log2_capacity: log2,
        };
        assert forall|e: int, m: int| !#[trigger] window.solvable(e, m) by {
            assert(window.parity_at(e) is None);
        }
        window
    }
}

impl RecoveryWindow {
    /// `after` differs from `self` in the slot of sequence `s` at most.
    spec fn only_slot_changed(&self, after: &Self, s: int) -> bool {
        &&& after.slots.len() == self.slots.len()
        &&& after.mask == self.mask
        &&& after.fec_width == self.fec_width
        &&& after.newest == self.newest
        &&& after.work == self.work
        &&& after.log2_capacity == self.log2_capacity
        &&& forall|i: int|
            0 <= i < self.slots.len() && i != self.index_of(s) ==> #[trigger] after.slots@[i]
                == self.slots@[i]
    }

    /// When only the slot of `s` changed and now holds `s`, every other
    /// sequence keeps its frame, parity and delivery, except those that shared
    /// the slot, which are gone.
    proof fn lemma_only_slot_changed(&self, after: &Self, s: int)
        requires
            self.only_slot_changed(after, s),
            self.slots.len() > 0,
            after.live(s),
        ensures
            forall|t: int|
                t != s ==> #[trigger] after.data_at(t) == if self.index_of(t) == self.index_of(s) {
                    None
                } else {
                    self.data_at(t)
                },
            forall|t: int|
                t != s ==> #[trigger] after.parity_at(t) == if self.index_of(t) == self.index_of(
                    s,
                ) {
                    None
                } else {
                    self.parity_at(t)
                },
            forall|t: int|
                t != s ==> #[trigger] after.delivered_at(t) == if self.index_of(t)
                    == self.index_of(s) {
                    false
                } else {
                    self.delivered_at(t)
                },
            forall|t: int|
                t != s ==> #[trigger] after.live(t) == if self.index_of(t) == self.index_of(s) {
                    false
                } else {
                    self.live(t)
                },
    {
        assert forall|t: int| t != s && 0 <= t implies #[trigger] self.index_of(t) >= 0
            && self.index_of(t) < self.slots.len() by {}
    }

    /// `s` is at most the newest sequence and less than a capacity behind it.
    spec fn recent(&self, s: int) -> bool {
        self.newest matches Some(n) && 0 <= s <= n && n < s + self.slots.len()
    }

    /// A sequence that shares its slot with a recent one is stale, and older.
    proof fn lemma_slot_sharer_stale(&self, t: int, s: int)
        requires
            self.layout_ok(),
            self.recent(s),
            self.live(t),
            t != s,
            self.index_of(t) == self.index_of(s),
        ensures
            self.stale(t),
            t + self.slots.len() <= s,
    {
        let c = self.slots.len() as int;
        let n = self.newest->0 as int;
        assert(self.slots@[self.index_of(t)].occupied);
        assert(t <= n);
        let qt = t / c;
        let qs = s / c;
        assert(t == qt * c + t % c && s == qs * c + s % c) by (nonlinear_arith)
            requires
                qt == t / c,
                qs == s / c,
                c > 0,
        ;
        if qt > qs {
            assert(qt * c >= qs * c + c) by (nonlinear_arith)
                requires
                    qt > qs,
                    c > 0,
            ;
        } else {
            assert(qt < qs);
            assert(qs * c >= qt * c + c) by (nonlinear_arith)
                requires
                    qt < qs,
                    c > 0,
            ;
        }
    }

    proof fn lemma_index(&self, sequence: u32)
        requires
            self.layout_ok(),
        ensures
            (sequence as usize) & self.mask == self.index_of(sequence as int),
            0 <= self.index_of(sequence as int) < self.slots.len(),
    {
        vstd::bits::lemma_usize_low_bits_mask_is_mod(sequence as usize, self.log2_capacity@);
    }

    /// Whether `sequence` is stale.
    fn is_stale(&self, sequence: u32) -> (stale: bool)
        requires
            self.layout_ok(),
        ensures
            stale == self.stale(sequence as int),
    {
        match self.newest {
            Some(newest) => sequence.saturating_add(self.slots.len() as u32) <= newest,
            None => false,
        }
    }

    /// The slot holding `sequence`, if any.
    fn slot(&self, sequence: u32) -> (slot: Option<&Slot>)
        requires
            self.layout_ok(),
        ensures
            slot is Some <==> self.live(sequence as int),
            slot matches Some(x) ==> *x == self.slots@[self.index_of(sequence as int)],
    {
        proof {
            self.lemma_index(sequence);
        }
        let slot = &self.slots[sequence as usize & self.mask];
        if slot.occupied && slot.sequence == sequence {
            Some(slot)
        } else {
            None
        }
    }

    /// The slot for `sequence`, first emptied and claimed for it when it held
    /// another sequence or nothing.
    fn slot_mut(&mut self, sequence: u32) -> (slot: &mut Slot)
        requires
            old(self).layout_ok(),
        ensures
            final(self).slots@ == old(self).slots@.update(
                old(self).index_of(sequence as int),
                *final(slot),
            ),
            final(self).mask == old(self).mask,
            final(self).fec_width == old(self).fec_width,
            final(self).newest == old(self).newest,
            final(self).work == old(self).work,
            final(self).log2_capacity == old(self).log2_capacity,
            0 <= old(self).index_of(sequence as int) < old(self).slots.len(),
            slot.occupied,
            slot.sequence == sequence,
            old(self).live(sequence as int) ==> *slot == old(self).slots@[old(self).index_of(
                sequence as int,
            )],
            !old(self).live(sequence as int) ==> !slot.delivered && !slot.has_data
                && !slot.has_parity && slot.data@ == zero_payload() && slot.parity@
                == zero_payload(),
    {
        proof {
            self.lemma_index(sequence);
        }
        let index = sequence as usize & self.mask;
        let slot = &mut self.slots[index];
        if !slot.occupied || slot.sequence != sequence {
            let empty = Slot::default();
            *slot = Slot { sequence, occupied: true, ..empty };
        }
        slot
    }

    /// The frame known for `sequence`.
    fn data(&self, sequence: u32) -> (data: Option<&Payload>)
        requires
            self.layout_ok(),
        ensures
            match data {
                Some(p) => self.data_at(sequence as int) == Some(p@),
                None => self.data_at(sequence as int) is None,
            },
    {
        match self.slot(sequence) {
            Some(slot) => if slot.has_data {
                Some(&slot.data)
            } else {
                None
            },
            None => None,
        }
    }

    /// The parity held for the equation ending at `sequence`.
    fn parity(&self, sequence: u32) -> (parity: Option<Payload>)
        requires
            self.layout_ok(),
        ensures
            match parity {
                Some(p) => self.parity_at(sequence as int) == Some(p@),
                None => self.parity_at(sequence as int) is None,
            },
    {
        match self.slot(sequence) {
            Some(slot) => if slot.has_parity {
                Some(slot.parity)
            } else {
                None
            },
            None => None,
        }
    }

    /// Keeps `payload` as the frame of `sequence` unless one is known already.
    ///
    /// `sequence` must not be newer than the newest accepted one: the ring's
    /// layout holds only sequences up to the newest, so `ingest` raises the
    /// newest before it stores.
    fn store_data(&mut self, sequence: u32, payload: &Payload)
        requires
            old(self).layout_ok(),
            old(self).newest matches Some(n) && sequence <= n,
        ensures
            final(self).layout_ok(),
            old(self).only_slot_changed(final(self), sequence as int),
            final(self).live(sequence as int),
            final(self).data_at(sequence as int) == if old(self).data_at(sequence as int) is Some {
                old(self).data_at(sequence as int)
            } else {
                Some(payload@)
            },
            final(self).parity_at(sequence as int) == old(self).parity_at(sequence as int),
            final(self).delivered_at(sequence as int) == old(self).delivered_at(sequence as int),
    {
        let slot = self.slot_mut(sequence);
        if !slot.has_data {
            slot.data = *payload;
            slot.has_data = true;
        }
    }

    /// Keeps `payload` as the parity of the equation ending at `sequence`
    /// unless one is held already.
    ///
    /// `sequence` must not be newer than the newest accepted one, for the
    /// same reason as in `store_data`.
    fn store_parity(&mut self, sequence: u32, payload: &Payload)
        requires
            old(self).layout_ok(),
            old(self).newest matches Some(n) && sequence <= n,
        ensures
            final(self).layout_ok(),
            old(self).only_slot_changed(final(self), sequence as int),
            final(self).live(sequence as int),
            final(self).parity_at(sequence as int) == if old(self).parity_at(sequence as int) is Some {
                old(self).parity_at(sequence as int)
            } else {
                Some(payload@)
            },
            final(self).data_at(sequence as int) == old(self).data_at(sequence as int),
            final(self).delivered_at(sequence as int) == old(self).delivered_at(sequence as int),
    {
        let slot = self.slot_mut(sequence);
        if !slot.has_parity {
            slot.parity = *payload;
            slot.has_parity = true;
        }
    }

    /// Hands out the frame of `sequence`, once: appends it to `delivered`
    /// when it is known and was not handed out before.
    ///
    /// The slot must already hold `sequence` (callers pass a frame they have
    /// just stored or restored): claiming a slot for a sequence it does not
    /// hold could break the ring's layout, and would hand out nothing anyway.
    fn deliver_if_new(&mut self, sequence: u32, delivered: &mut Vec<(u32, Payload)>)
        requires
            old(self).layout_ok(),
            old(self).live(sequence as int),
        ensures
            final(self).layout_ok(),
            old(self).only_slot_changed(final(self), sequence as int),
            final(self).live(sequence as int),
            final(self).data_at(sequence as int) == old(self).data_at(sequence as int),
            final(self).parity_at(sequence as int) == old(self).parity_at(sequence as int),
            final(self).delivered_at(sequence as int) == (old(self).delivered_at(sequence as int)
                || old(self).data_at(sequence as int) is Some),
            if old(self).data_at(sequence as int) is Some && !old(self).delivered_at(
                sequence as int,
            ) {
                &&& final(delivered)@.len() == old(delivered)@.len() + 1
                &&& final(delivered)@.drop_last() == old(delivered)@
                &&& final(delivered)@.last().0 == sequence
                &&& Some(final(delivered)@.last().1@) == old(self).data_at(sequence as int)
            } else {
                final(delivered)@ == old(delivered)@
            },
    {
        let slot = self.slot_mut(sequence);
        if slot.has_data && !slot.delivered {
            slot.delivered = true;
            delivered.push((sequence, slot.data));
        }
    }

    /// Queues every equation that contains `sequence`: those ending at
    /// `sequence` and at the `fec_width - 1` sequences after it.
    fn enqueue_equations_containing(&mut self, sequence: u32)
        requires
            old(self).layout_ok(),
        ensures
            final(self).slots == old(self).slots,
            final(self).mask == old(self).mask,
            final(self).fec_width == old(self).fec_width,
            final(self).newest == old(self).newest,
            final(self).log2_capacity == old(self).log2_capacity,
            final(self).work@.len() >= old(self).work@.len(),
            final(self).work@.subrange(0, old(self).work@.len() as int) == old(self).work@,
            final(self).work@ == old(self).work@ + equation_ends(sequence, old(self).fec_width),
            forall|e: int|
                sequence <= e < sequence + old(self).fec_width && e <= u32::MAX
                    ==> #[trigger] final(self).work@.contains(e as u32),
    {
        let width = self.fec_width;
        let ghost start_work = self.work@;
        let mut offset: u32 = 0;
        while offset < width
            invariant
                width == self.fec_width,
                offset <= width,
                self.slots == old(self).slots,
                self.mask == old(self).mask,
                self.fec_width == old(self).fec_width,
                self.newest == old(self).newest,
                self.log2_capacity == old(self).log2_capacity,
                start_work == old(self).work@,
                self.work@.len() >= start_work.len(),
                self.work@.subrange(0, start_work.len() as int) == start_work,
                self.work@ == start_work + equation_ends(sequence, offset),
                forall|e: int|
                    sequence <= e < sequence + offset && e <= u32::MAX
                        ==> #[trigger] self.work@.contains(e as u32),
            decreases width - offset,
        {
            let ghost before = self.work@;
            match sequence.checked_add(offset) {
                Some(endpoint) => {
                    self.work.push(endpoint);
                    proof {
                        assert(self.work@[before.len() as int] == endpoint);
                        assert forall|e: int|
                            sequence <= e < sequence + offset + 1 && e <= u32::MAX
                                implies #[trigger] self.work@.contains(
                            e as u32,
                        ) by {
                            if e < sequence + offset {
                                assert(before.contains(e as u32));
                                let j = choose|j: int| 0 <= j < before.len() && before[j] == e as u32;
                                assert(self.work@[j] == e as u32);
                            }
                        }
                        assert(self.work@.subrange(0, start_work.len() as int) =~= start_work) by {
                            assert(before.subrange(0, start_work.len() as int) == start_work);
                        }
                        assert(equation_ends(sequence, (offset + 1) as u32) =~= equation_ends(
                            sequence,
                            offset,
                        ).push(endpoint));
                    }
                },
                None => {
                    assert(equation_ends(sequence, (offset + 1) as u32) =~= equation_ends(
                        sequence,
                        offset,
                    ));
                },
            }
            offset = offset + 1;
        }
    }
}

impl RecoveryWindow {
    /// The frame known for each sequence, the zero frame where none is known.
    spec fn known_or_zero(&self) -> spec_fn(int) -> Seq<u8> {
        |k: int|
            match self.data_at(k) {
                Some(p) => p,
                None => zero_payload(),
            }
    }

    proof fn lemma_known_or_zero_sized(&self, first: int, last: int)
        ensures
            crate::frames_sized(self.known_or_zero(), first, last),
    {
        assert forall|k: int| first <= k <= last implies (#[trigger] self.known_or_zero()(k)).len()
            == PAYLOAD_BYTES by {
            if self.data_at(k) is Some {
                assert(self.slots@[self.index_of(k)].data@.len() == PAYLOAD_BYTES);
            }
        }
    }

    /// Solves the equation ending at `endpoint` when it misses exactly one
    /// frame that is not stale: that frame is the parity XOR all the other
    /// members, and it is stored.  Returns the restored sequence.
    fn try_recover(&mut self, endpoint: u32) -> (recovered: Option<u32>)
        requires
            old(self).layout_ok(),
        ensures
            final(self).layout_ok(),
            match recovered {
                None => {
                    &&& *final(self) == *old(self)
                    &&& forall|m: int| !#[trigger] old(self).solvable(endpoint as int, m)
                },
                Some(m) => {
                    &&& old(self).solvable(endpoint as int, m as int)
                    &&& old(self).only_slot_changed(final(self), m as int)
                    &&& final(self).live(m as int)
                    &&& final(self).data_at(m as int) == Some(
                        xor_bytes(
                            old(self).parity_at(endpoint as int)->0,
                            xor_range(
                                old(self).known_or_zero(),
                                old(self).equation_start(endpoint as int),
                                endpoint as int,
                            ),
                        ),
                    )
                    &&& final(self).parity_at(m as int) == old(self).parity_at(m as int)
                    &&& final(self).delivered_at(m as int) == old(self).delivered_at(m as int)
                    &&& forall|frames: spec_fn(int) -> Seq<u8>|
                        #[trigger] old(self).consistent_with(frames) ==> final(self).consistent_with(
                            frames,
                        )
                },
            },
    {
        let mut recovered = match self.parity(endpoint) {
            Some(p) => p,
            None => return None,
        };
        let ghost parity = recovered@;
        let ghost known = self.known_or_zero();
        let start = endpoint.saturating_sub(self.fec_width - 1);
        let mut missing: Option<u32> = None;
        let mut sequence: u64 = start as u64;
        proof {
            crate::lemma_xor_zero(parity);
        }
        while sequence <= endpoint as u64
            invariant
                *self == *old(self),
                self.layout_ok(),
                known == self.known_or_zero(),
                self.parity_at(endpoint as int) == Some(parity),
                start == self.equation_start(endpoint as int),
                start <= sequence <= endpoint as int + 1,
                recovered@ == xor_bytes(parity, xor_range(known, start as int, sequence - 1)),
                match missing {
                    None => forall|k: int|
                        start <= k < sequence ==> (#[trigger] self.data_at(k)) is Some,
                    Some(m) => {
                        &&& start <= m < sequence
                        &&& self.data_at(m as int) is None
                        &&& forall|k: int|
                            start <= k < sequence && k != m ==> (#[trigger] self.data_at(k)) is Some
                    },
                },
            decreases endpoint as int + 1 - sequence,
        {
            let member = sequence as u32;
            proof {
                self.lemma_known_or_zero_sized(start as int, sequence as int);
                crate::lemma_xor_range_len(known, start as int, sequence as int - 1);
            }
            match self.data(member) {
                Some(data) => {
                    proof {
                        crate::lemma_xor_assoc(
                            parity,
                            xor_range(known, start as int, sequence - 1),
                            data@,
                        );
                    }
                    xor_in_place(&mut recovered, data);
                },
                None => {
                    proof {
                        crate::lemma_xor_zero(xor_range(known, start as int, sequence - 1));
                    }
                    if missing.is_some() {
                        proof {
                            let first = missing->0 as int;
                            assert forall|m: int| !#[trigger] old(self).solvable(endpoint as int, m) by {
                                if m == first {
                                    assert(self.data_at(member as int) is None);
                                } else {
                                    assert(self.data_at(first) is None);
                                }
                            }
                        }
                        return None;
                    }
                    missing = Some(member);
                },
            }
            sequence = sequence + 1;
        }
        let sequence = match missing {
            Some(s) => s,
            None => {
                proof {
                    assert forall|m: int| !#[trigger] old(self).solvable(endpoint as int, m) by {
                        if start <= m <= endpoint {
                            assert(self.data_at(m) is Some);
                        }
                    }
                }
                return None;
            },
        };
        if self.is_stale(sequence) {
            proof {
                assert forall|m: int| !#[trigger] old(self).solvable(endpoint as int, m) by {
                    if m != sequence {
                        assert(self.data_at(sequence as int) is None);
                    }
                }
            }
            return None;
        }
        proof {
            assert(self.live(endpoint as int));
            assert(self.slots@[self.index_of(endpoint as int)].occupied);
            assert(old(self).solvable(endpoint as int, sequence as int));
        }
        let ghost before = *self;
        self.store_data(sequence, &recovered);
        proof {
            before.lemma_only_slot_changed(self, sequence as int);
            assert forall|frames: spec_fn(int) -> Seq<u8>|
                #[trigger] before.consistent_with(frames) implies self.consistent_with(frames) by {
                let m = sequence as int;
                let e = endpoint as int;
                before.lemma_known_or_zero_sized(start as int, e);
                assert forall|k: int| start <= k <= e && k != m implies #[trigger] frames(k) == known(
                    k,
                ) by {
                    assert(before.data_at(k) is Some);
                }
                crate::lemma_xor_range_with_hole(frames, known, start as int, e, m);
                crate::lemma_xor_range_len(known, start as int, e);
                crate::lemma_xor_cancel(xor_range(known, start as int, e), frames(m));
                assert(recovered@ == frames(m));
                assert forall|s: int| #[trigger]
                    self.data_at(s) is Some implies self.data_at(s)->0 == frames(s) by {
                    if s != m {
                        assert(self.data_at(s) == before.data_at(s) || self.data_at(s) is None);
                    }
                }
                assert forall|s: int| #[trigger]
                    self.parity_at(s) is Some implies self.parity_at(s)->0 == xor_range(
                    frames,
                    self.equation_start(s),
                    s,
                ) by {
                    if s != m {
                        assert(self.parity_at(s) == before.parity_at(s) || self.parity_at(s) is None);
                    }
                }
            }
        }
        Some(sequence)
    }
}

impl RecoveryWindow {
    /// Slot `i` holds a known frame that is not stale.
    spec fn counts(&self, i: int) -> bool {
        &&& self.slots@[i].occupied
        &&& self.slots@[i].has_data
        &&& !self.stale(self.slots@[i].sequence as int)
    }

    /// How many of the first `n` slots hold a known frame that is not stale.
    spec fn known_count(&self, n: int) -> nat
        decreases n,
    {
        if n <= 0 {
            0
        } else {
            self.known_count(n - 1) + if self.counts(n - 1) {
                1nat
            } else {
                0nat
            }
        }
    }

    proof fn lemma_known_count_bound(&self, n: int)
        requires
            n >= 0,
        ensures
            self.known_count(n) <= n,
        decreases n,
    {
        if n > 0 {
            self.lemma_known_count_bound(n - 1);
        }
    }

    /// Restoring a frame into one slot, all others unchanged, counts one more.
    proof fn lemma_known_count_step(&self, after: &Self, idx: int, n: int)
        requires
            0 <= idx < n <= self.slots.len(),
            after.slots.len() == self.slots.len(),
            after.newest == self.newest,
            forall|i: int| 0 <= i < n && i != idx ==> #[trigger] after.slots@[i] == self.slots@[i],
            !self.counts(idx),
            after.counts(idx),
        ensures
            after.known_count(n) == self.known_count(n) + 1,
        decreases n,
    {
        if n - 1 > idx {
            self.lemma_known_count_step(after, idx, n - 1);
        } else {
            self.lemma_known_count_same(after, n - 1);
        }
    }

    proof fn lemma_known_count_same(&self, after: &Self, n: int)
        requires
            0 <= n <= self.slots.len(),
            after.slots.len() == self.slots.len(),
            after.newest == self.newest,
            forall|i: int| 0 <= i < n ==> #[trigger] after.slots@[i] == self.slots@[i],
        ensures
            after.known_count(n) == self.known_count(n),
        decreases n,
    {
        if n > 0 {
            self.lemma_known_count_same(after, n - 1);
        }
    }

    /// After one slot changed to hold `s` (keeping what was known for `s`), an
    /// equation can have become solvable only by a newly known frame `s` in
    /// it or a newly held parity at `s`.
    proof fn lemma_solvable_after_slot_change(&self, after: &Self, s: int)
        requires
            self.layout_ok(),
            self.only_slot_changed(after, s),
            after.live(s),
            self.recent(s),
            self.data_at(s) is Some ==> after.data_at(s) == self.data_at(s),
            self.parity_at(s) is Some ==> after.parity_at(s) == self.parity_at(s),
        ensures
            forall|e: int, m: int| #[trigger]
                after.solvable(e, m) ==> self.solvable(e, m) || (self.equation_start(e) <= s <= e
                    && self.data_at(s) is None && after.data_at(s) is Some) || (e == s
                    && self.parity_at(s) is None),
    {
        self.lemma_only_slot_changed(after, s);
        assert forall|e: int, m: int| #[trigger]
            after.solvable(e, m) && !(self.equation_start(e) <= s <= e && self.data_at(s) is None
                && after.data_at(s) is Some) && !(e == s && self.parity_at(s) is None) implies self.solvable(
            e,
            m,
        ) by {
            if m != s && self.index_of(m) == self.index_of(s) && self.live(m) {
                self.lemma_slot_sharer_stale(m, s);
            }
            assert(!self.stale(m));
            assert(self.data_at(m) is None);
            assert forall|k: int| self.equation_start(e) <= k <= e && k != m implies (
            #[trigger] self.data_at(k)) is Some by {
                assert(after.data_at(k) is Some);
            }
        }
    }

    /// After one slot changed to hold the recent sequence `s`, every other
    /// sequence keeps its frame and parity, or lost them by being stale and
    /// at least a capacity older than `s`.
    proof fn lemma_step_effects(&self, after: &Self, s: int)
        requires
            self.layout_ok(),
            self.only_slot_changed(after, s),
            after.live(s),
            self.recent(s),
        ensures
            forall|t: int|
                t != s ==> (#[trigger] after.data_at(t) == self.data_at(t)) || (after.data_at(t) is None
                    && self.stale(t) && t + self.slots.len() <= s),
            forall|t: int|
                t != s ==> (#[trigger] after.parity_at(t) == self.parity_at(t)) || (after.parity_at(
                    t,
                ) is None && self.stale(t) && t + self.slots.len() <= s),
            forall|i: int|
                0 <= i < self.slots.len() && i != self.index_of(s) ==> #[trigger] after.slots@[i]
                    == self.slots@[i],
            0 <= self.index_of(s) < self.slots.len(),
            !self.counts(self.index_of(s)) || self.live(s),
    {
        self.lemma_only_slot_changed(after, s);
        assert forall|t: int|
            t != s && self.index_of(t) == self.index_of(s) && self.live(t) implies self.stale(t)
            && t + self.slots.len() <= s by {
            self.lemma_slot_sharer_stale(t, s);
        }
        let idx = self.index_of(s);
        if self.counts(idx) && !self.live(s) {
            let t = self.slots@[idx].sequence as int;
            assert(self.index_of(t) == idx);
            assert(self.live(t));
        }
    }

    /// Two windows that hold the same frames and parities, with the same
    /// newest sequence and shape, have the same solvable equations.
    proof fn lemma_same_views_solvable(&self, other: &Self)
        requires
            forall|t: int| #[trigger] self.data_at(t) == other.data_at(t),
            forall|t: int| #[trigger] self.parity_at(t) == other.parity_at(t),
            self.newest == other.newest,
            self.slots.len() == other.slots.len(),
            self.fec_width == other.fec_width,
        ensures
            forall|e: int, m: int| #[trigger] self.solvable(e, m) == other.solvable(e, m),
    {
        assert forall|e: int, m: int| #[trigger] self.solvable(e, m) implies other.solvable(e, m) by {
            assert forall|k: int| other.equation_start(e) <= k <= e && k != m implies (
            #[trigger] other.data_at(k)) is Some by {
                assert(self.data_at(k) is Some);
            }
        }
        assert forall|e: int, m: int| #[trigger] other.solvable(e, m) implies self.solvable(e, m) by {
            assert forall|k: int| self.equation_start(e) <= k <= e && k != m implies (
            #[trigger] self.data_at(k)) is Some by {
                assert(other.data_at(k) is Some);
            }
        }
    }

    /// A frame known after the first `i` entries was known before them or is
    /// one of them.
    pub proof fn lemma_known_after_source(&self, fresh: Seq<(u32, Payload)>, i: int, k: int)
        requires
            0 <= i <= fresh.len(),
            self.known_after(fresh, i, k) is Some,
        ensures
            self.data_at(k) is Some || exists|j: int| 0 <= j < i && (#[trigger] fresh[j]).0 == k,
        decreases i,
    {
        if i > 0 && fresh[i - 1].0 != k {
            self.lemma_known_after_source(fresh, i - 1, k);
        }
    }

    /// What is known after the first `i` entries depends on those entries only.
    proof fn lemma_known_after_prefix(
        &self,
        f1: Seq<(u32, Payload)>,
        f2: Seq<(u32, Payload)>,
        i: int,
    )
        requires
            0 <= i <= f1.len(),
            i <= f2.len(),
            f1.subrange(0, i) == f2.subrange(0, i),
        ensures
            forall|k: int| #[trigger] self.known_after(f1, i, k) == self.known_after(f2, i, k),
        decreases i,
    {
        if i > 0 {
            assert(f1.subrange(0, i - 1) =~= f2.subrange(0, i - 1)) by {
                assert(f1.subrange(0, i).subrange(0, i - 1) =~= f1.subrange(0, i - 1));
                assert(f2.subrange(0, i).subrange(0, i - 1) =~= f2.subrange(0, i - 1));
            }
            assert(f1[i - 1] == f1.subrange(0, i)[i - 1]);
            assert(f2[i - 1] == f2.subrange(0, i)[i - 1]);
            self.lemma_known_after_prefix(f1, f2, i - 1);
            assert forall|k: int| #[trigger] self.known_after(f1, i, k) == self.known_after(
                f2,
                i,
                k,
            ) by {
                assert(self.known_after(f1, i - 1, k) == self.known_after(f2, i - 1, k));
            }
        }
    }

    /// A frame neither known nor among the first `i` entries stays unknown.
    proof fn lemma_known_after_absent(&self, f: Seq<(u32, Payload)>, i: int, k: int)
        requires
            0 <= i <= f.len(),
            self.data_at(k) is None,
            forall|j: int| 0 <= j < i ==> (#[trigger] f[j]).0 != k,
        ensures
            self.known_after(f, i, k) is None,
        decreases i,
    {
        if i > 0 {
            self.lemma_known_after_absent(f, i - 1, k);
        }
    }

    /// A restored entry stays restored when later entries are appended and
    /// the equations it may rest on are kept.
    proof fn lemma_restored_extend(
        &self,
        a: &Self,
        b: &Self,
        f1: Seq<(u32, Payload)>,
        f2: Seq<(u32, Payload)>,
        i: int,
    )
        requires
            0 <= i < f1.len(),
            i < f2.len(),
            f1.subrange(0, i + 1) == f2.subrange(0, i + 1),
            self.restored_by_peeling(a, f1, i),
            forall|e: int|
                e >= f1[i].0 && (#[trigger] a.parity_at(e)) is Some ==> b.parity_at(e) == a.parity_at(e),
        ensures
            self.restored_by_peeling(b, f2, i),
    {
        assert(f1.subrange(0, i) =~= f2.subrange(0, i)) by {
            assert(f1.subrange(0, i + 1).subrange(0, i) =~= f1.subrange(0, i));
            assert(f2.subrange(0, i + 1).subrange(0, i) =~= f2.subrange(0, i));
        }
        assert(f1[i] == f1.subrange(0, i + 1)[i]);
        assert(f2[i] == f2.subrange(0, i + 1)[i]);
        self.lemma_known_after_prefix(f1, f2, i);
        let s = f1[i].0 as int;
        let e = choose|e: int|
            #![trigger a.parity_at(e)]
            {
                &&& a.parity_at(e) is Some
                &&& self.equation_start(e) <= s <= e
                &&& self.known_after(f1, i, s) is None
                &&& forall|k: int|
                    self.equation_start(e) <= k <= e && k != s ==> (#[trigger] self.known_after(
                        f1,
                        i,
                        k,
                    )) is Some
                &&& f1[i].1@ == xor_bytes(
                    a.parity_at(e)->0,
                    xor_range(self.known_after_or_zero(f1, i), self.equation_start(e), e),
                )
            };
        assert(b.parity_at(e) == a.parity_at(e));
        assert forall|k: int| self.equation_start(e) <= k <= e && k != s implies (
        #[trigger] self.known_after(f2, i, k)) is Some by {
            assert(self.known_after(f1, i, k) is Some);
        }
        crate::lemma_xor_range_agree(
            self.known_after_or_zero(f1, i),
            self.known_after_or_zero(f2, i),
            self.equation_start(e),
            e,
        );
    }

    /// A change of one slot that stores only what agrees with `frames` keeps
    /// the window consistent with `frames`.
    proof fn lemma_consistent_after_slot_change(
        &self,
        after: &Self,
        s: int,
        frames: spec_fn(int) -> Seq<u8>,
    )
        requires
            self.only_slot_changed(after, s),
            self.slots.len() > 0,
            after.live(s),
            self.consistent_with(frames),
            after.data_at(s) matches Some(p) ==> p == frames(s),
            after.parity_at(s) matches Some(p) ==> p == xor_range(
                frames,
                self.equation_start(s),
                s,
            ),
        ensures
            after.consistent_with(frames),
    {
        self.lemma_only_slot_changed(after, s);
        assert forall|t: int| #[trigger] after.data_at(t) is Some implies after.data_at(t)->0
            == frames(t) by {
            if t != s {
                assert(self.data_at(t) is Some);
            }
        }
        assert forall|t: int| #[trigger] after.parity_at(t) is Some implies after.parity_at(t)->0
            == xor_range(frames, after.equation_start(t), t) by {
            if t != s {
                assert(self.parity_at(t) is Some);
            }
        }
    }
}

impl RecoveryWindow {
    /// `after` knows what `self` knew, except frames and parities that went
    /// stale, and learned only frames and parities that were not stale and
    /// are within a capacity of the newest sequence.
    pub open spec fn learns(&self, after: &Self) -> bool {
        &&& after.capacity() == self.capacity()
        &&& after.fec_width() == self.fec_width()
        &&& match self.newest() {
            Some(n) => after.newest() matches Some(n2) && n <= n2,
            None => true,
        }
        &&& forall|s: int| #[trigger]
            after.data_at(s) is Some ==> after.data_at(s) == self.data_at(s) || (self.data_at(s) is None
                && !self.stale(s) && (after.newest() matches Some(n) && s <= n < s + after.capacity()))
        &&& forall|s: int|
            !after.stale(s) && self.data_at(s) is Some ==> #[trigger] after.data_at(s) == self.data_at(s)
        &&& forall|s: int| #[trigger]
            after.parity_at(s) is Some ==> after.parity_at(s) == self.parity_at(s) || (
                self.parity_at(s) is None
                && !self.stale(s))
        &&& forall|s: int|
            !after.stale(s) && self.parity_at(s) is Some ==> #[trigger] after.parity_at(s)
                == self.parity_at(s)
    }
}

/// A frame is handed out at most once: once the window knows a frame or
/// treats its sequence as stale, it keeps doing so in every later state, and
/// `ingest` hands out only frames the window neither knew nor treated as stale.
pub proof fn lemma_known_or_stale_persists(before: &RecoveryWindow, after: &RecoveryWindow, s: int)
    requires
        before.learns(after),
        before.data_at(s) is Some || before.stale(s),
    ensures
        after.data_at(s) is Some || after.stale(s),
{
    if before.stale(s) {
        assert(after.stale(s));
    }
}

/// The ends of the equations of `width` frames that contain `sequence`, in
/// increasing order: `sequence` and the `width - 1` numbers after it, those
/// beyond `u32::MAX` left out.
pub open spec fn equation_ends(sequence: u32, width: u32) -> Seq<u32> {
    let count = if sequence + width - 1 <= u32::MAX {
        width as int
    } else {
        u32::MAX - sequence + 1
    };
    Seq::new(count as nat, |o: int| (sequence + o) as u32)
}

/// The newest sequence after accepting `sequence`.
pub open spec fn raised_newest(newest: Option<u32>, sequence: u32) -> u32 {
    match newest {
        Some(n) => if n >= sequence {
            n
        } else {
            sequence
        },
        None => sequence,
    }
}

impl RecoveryWindow {
    /// Accepts one packet of the link whose sequence number is `sequence`, and
    /// appends to `delivered` the frames that became known through it, each
    /// with its sequence number, in the order they were found.
    ///
    /// A packet for a stale sequence changes nothing.  Otherwise the packet is
    /// stored (a frame or parity already held is kept), and equations are
    /// solved by peeling until none is left that misses exactly one recent
    /// frame.
    #[verifier::rlimit(60)]
    #[verifier::spinoff_prover]
    pub fn ingest(
        &mut self,
        sequence: u32,
        packet: WirePacket<'_>,
        delivered: &mut Vec<(u32, Payload)>,
    )
        requires
            old(self).wf(),
            old(self).peeling_closed(),
        ensures
            final(self).wf(),
            final(delivered)@.len() >= old(delivered)@.len(),
            final(delivered)@.subrange(0, old(delivered)@.len() as int) == old(delivered)@,
            old(self).ingested(
                final(self),
                sequence,
                packet.kind,
                packet.payload@,
                final(delivered)@.subrange(
                    old(delivered)@.len() as int,
                    final(delivered)@.len() as int,
                ),
            ),
    {
        let ghost prior = delivered@;
        if self.is_stale(sequence) {
            return;
        }
        let ghost old0 = *self;
        let new_newest = match self.newest {
            Some(newest) => if newest >= sequence {
                newest
            } else {
                sequence
            },
            None => sequence,
        };
        self.newest = Some(new_newest);
        let ghost raised = *self;
        proof {
            assert forall|t: int| #[trigger] raised.data_at(t) == old0.data_at(t) by {}
            assert forall|t: int| #[trigger] raised.parity_at(t) == old0.parity_at(t) by {}
            assert forall|e: int, m: int| !#[trigger] raised.solvable(e, m) by {
                if raised.solvable(e, m) {
                    assert(!old0.stale(m));
                    assert forall|k: int| old0.equation_start(e) <= k <= e && k != m implies (
                    #[trigger] old0.data_at(k)) is Some by {
                        assert(raised.data_at(k) is Some);
                    }
                    assert(old0.solvable(e, m));
                }
            }
            assert(raised.recent(sequence as int));
        }
        let ghost kind = packet.kind;
        let ghost payload = packet.payload@;
        let ghost data0 = if old0.data_at(sequence as int) is Some {
            old0.data_at(sequence as int)
        } else {
            Some(payload)
        };
        let ghost first: int = if kind == PacketKind::Data && old0.data_at(sequence as int) is None {
            1
        } else {
            0
        };
        let ghost parity0 = if old0.parity_at(sequence as int) is Some {
            old0.parity_at(sequence as int)
        } else {
            Some(payload)
        };
        match packet.kind {
            PacketKind::Data => {
                self.store_data(sequence, packet.payload);
                let ghost stored = *self;
                self.work.clear();
                let ghost cleared = *self;
                self.deliver_if_new(sequence, delivered);
                let ghost handed = *self;
                self.enqueue_equations_containing(sequence);
                proof {
                    raised.lemma_step_effects(&stored, sequence as int);
                    raised.lemma_solvable_after_slot_change(&stored, sequence as int);
                    cleared.lemma_only_slot_changed(&handed, sequence as int);
                    assert forall|t: int| #[trigger] self.data_at(t) == stored.data_at(t) by {}
                    assert forall|t: int| #[trigger] self.parity_at(t) == stored.parity_at(t) by {}
                    self.lemma_same_views_solvable(&stored);
                    assert forall|e: int, m: int| #[trigger]
                        self.solvable(e, m) implies self.work@.contains(e as u32) by {
                        assert(stored.solvable(e, m));
                        assert(self.parity_at(e) is Some);
                    }
                    let idx = raised.index_of(sequence as int);
                    assert forall|i: int|
                        0 <= i < self.slots.len() && #[trigger] self.slots@[i].occupied
                            && self.slots@[i].has_data implies self.slots@[i].delivered by {
                        if i != idx {
                            assert(self.slots@[i] == old0.slots@[i]);
                        }
                    }
                    assert forall|frames: spec_fn(int) -> Seq<u8>|
                        #[trigger] old0.consistent_with(frames) && old0.packet_consistent_with(
                            frames,
                            sequence as int,
                            kind,
                            payload,
                        ) implies self.consistent_with(frames) by {
                        raised.lemma_consistent_after_slot_change(&stored, sequence as int, frames);
                    }
                    if old0.data_at(sequence as int) is None {
                        assert(delivered@[prior.len() as int].0 == sequence);
                    }
                    let fresh = delivered@.subrange(prior.len() as int, delivered@.len() as int);
                    assert(cleared.data_at(sequence as int) == stored.data_at(sequence as int));
                    if first == 1 {
                        assert(delivered@.len() == prior.len() + 1);
                        assert(fresh.len() == 1);
                        assert(fresh[0] == delivered@[prior.len() as int]);
                        assert(delivered@[prior.len() as int] == delivered@.last());
                        assert(fresh[0].1@ == payload);
                    } else {
                        assert(delivered@ == prior);
                        assert(fresh.len() == 0);
                    }
                    assert forall|t: int| #[trigger] self.data_at(t) is Some implies self.data_at(t)
                        == old0.known_after(fresh, fresh.len() as int, t) by {
                        if t != sequence {
                            assert(self.data_at(t) == raised.data_at(t));
                            if first == 1 {
                                assert(old0.known_after(fresh, 1, t) == old0.known_after(fresh, 0, t));
                            }
                        } else if first == 1 {
                            assert(old0.known_after(fresh, 1, t) == Some(fresh[0].1@));
                        }
                    }
                }
            },
            PacketKind::Parity => {
                self.store_parity(sequence, packet.payload);
                let ghost stored = *self;
                self.work.clear();
                self.work.push(sequence);
                proof {
                    raised.lemma_step_effects(&stored, sequence as int);
                    raised.lemma_solvable_after_slot_change(&stored, sequence as int);
                    assert forall|t: int| #[trigger] self.data_at(t) == stored.data_at(t) by {}
                    assert forall|t: int| #[trigger] self.parity_at(t) == stored.parity_at(t) by {}
                    self.lemma_same_views_solvable(&stored);
                    assert(self.work@[0] == sequence);
                    assert forall|e: int, m: int| #[trigger]
                        self.solvable(e, m) implies self.work@.contains(e as u32) by {
                        assert(stored.solvable(e, m));
                    }
                    let idx = raised.index_of(sequence as int);
                    assert forall|i: int|
                        0 <= i < self.slots.len() && #[trigger] self.slots@[i].occupied
                            && self.slots@[i].has_data implies self.slots@[i].delivered by {
                        if i != idx {
                            assert(self.slots@[i] == old0.slots@[i]);
                        } else {
                            if old0.live(sequence as int) {
                                assert(old0.slots@[i] == self.slots@[i] || self.slots@[i].has_data
                                    == old0.slots@[i].has_data);
                            }
                        }
                    }
                    assert forall|frames: spec_fn(int) -> Seq<u8>|
                        #[trigger] old0.consistent_with(frames) && old0.packet_consistent_with(
                            frames,
                            sequence as int,
                            kind,
                            payload,
                        ) implies self.consistent_with(frames) by {
                        raised.lemma_consistent_after_slot_change(&stored, sequence as int, frames);
                    }
                    let fresh = delivered@.subrange(prior.len() as int, delivered@.len() as int);
                    assert(fresh.len() == 0);
                    assert forall|t: int| #[trigger] self.data_at(t) is Some implies self.data_at(t)
                        == old0.known_after(fresh, 0, t) by {
                        if t != sequence {
                            assert(self.data_at(t) == raised.data_at(t));
                        }
                    }
                }
            },
        }
        while self.work.len() > 0
            invariant
                self.layout_ok(),
                self.all_known_delivered(),
                self.newest == Some(new_newest),
                old0.newest matches Some(n0) ==> n0 <= new_newest,
                self.slots.len() == old0.slots.len(),
                self.fec_width == old0.fec_width,
                self.recent(sequence as int),
                forall|e: int, m: int| #[trigger] self.solvable(e, m) ==> self.work@.contains(e as u32),
                forall|t: int| #[trigger]
                    self.data_at(t) is Some ==> self.data_at(t) == old0.data_at(t) || (old0.data_at(t) is None
                        && self.recent(t) && !old0.stale(t)),
                forall|t: int|
                    !self.stale(t) && old0.data_at(t) is Some ==> #[trigger] self.data_at(t)
                        == old0.data_at(t),
                forall|t: int| #[trigger]
                    self.parity_at(t) is Some ==> self.parity_at(t) == old0.parity_at(t) || (t == sequence
                        && kind == PacketKind::Parity && old0.parity_at(t) is None && !old0.stale(t)),
                forall|t: int|
                    !self.stale(t) && old0.parity_at(t) is Some ==> #[trigger] self.parity_at(t)
                        == old0.parity_at(t),
                data0 is Some,
                first == (if kind == PacketKind::Data && old0.data_at(sequence as int) is None {
                    1int
                } else {
                    0int
                }),
                delivered@.len() >= prior.len() + first,
                first == 1 ==> delivered@[prior.len() as int].0 == sequence && delivered@[prior.len()
                    as int].1@ == payload,
                forall|t: int| #[trigger]
                    self.data_at(t) is Some ==> self.data_at(t) == old0.known_after(
                        delivered@.subrange(prior.len() as int, delivered@.len() as int),
                        delivered@.len() - prior.len(),
                        t,
                    ),
                forall|i: int|
                    first <= i < delivered@.len() - prior.len() ==> #[trigger] old0.restored_by_peeling(
                        self,
                        delivered@.subrange(prior.len() as int, delivered@.len() as int),
                        i,
                    ),
                kind == PacketKind::Data ==> self.data_at(sequence as int) == data0,
                kind == PacketKind::Parity ==> self.parity_at(sequence as int) == parity0,
                delivered@.len() >= prior.len(),
                delivered@.subrange(0, prior.len() as int) == prior,
                forall|i: int|
                    prior.len() <= i < delivered@.len() ==> old0.data_at(
                        #[trigger] delivered@[i].0 as int,
                    ) is None
                        && self.data_at(delivered@[i].0 as int) == Some(delivered@[i].1@),
                forall|i: int, j: int|
                    prior.len() <= i < j < delivered@.len() ==> #[trigger] delivered@[i].0
                        != #[trigger] delivered@[j].0,
                forall|t: int| #[trigger]
                    self.data_at(t) is Some && old0.data_at(t) is None ==> exists|i: int|
                        prior.len() <= i < delivered@.len() && #[trigger] delivered@[i].0 == t,
                forall|frames: spec_fn(int) -> Seq<u8>|
                    #[trigger] old0.consistent_with(frames) && old0.packet_consistent_with(
                        frames,
                        sequence as int,
                        kind,
                        payload,
                    ) ==> self.consistent_with(frames),
            decreases self.slots.len() - self.known_count(self.slots.len() as int), self.work.len(),
        {
            let ghost head = *self;
            let endpoint = self.work.pop().unwrap();
            let ghost popped = *self;
            proof {
                assert(head.work@.last() == endpoint);
                assert forall|t: int| #[trigger] popped.data_at(t) == head.data_at(t) by {}
                assert forall|t: int| #[trigger] popped.parity_at(t) == head.parity_at(t) by {}
                popped.lemma_known_count_same(&head, self.slots.len() as int);
                popped.lemma_same_views_solvable(&head);
            }
            match self.try_recover(endpoint) {
                Some(recovered) => {
                    let ghost restored = *self;
                    let ghost listed = delivered@;
                    self.deliver_if_new(recovered, delivered);
                    let ghost handed = *self;
                    self.enqueue_equations_containing(recovered);
                    proof {
                        let m = recovered as int;
                        let e = endpoint as int;
                        let idx = popped.index_of(m);
                        assert(popped.live(e));
                        assert(popped.slots@[popped.index_of(e)].occupied);
                        assert(popped.recent(m));
                        popped.lemma_step_effects(&restored, m);
                        popped.lemma_solvable_after_slot_change(&restored, m);
                        restored.lemma_only_slot_changed(&handed, m);
                        assert forall|t: int| #[trigger] self.data_at(t) == restored.data_at(t) by {}
                        assert forall|t: int| #[trigger] self.parity_at(t) == restored.parity_at(t) by {}
                        self.lemma_same_views_solvable(&restored);
                        assert(!popped.delivered_at(m));
                        // newly known frames are recent; what was known stays
                        assert(!old0.stale(m));
                        assert(old0.data_at(m) is None) by {
                            if old0.data_at(m) is Some {
                                assert(!popped.stale(m));
                                assert(popped.data_at(m) == old0.data_at(m));
                            }
                        }
                        // pending equations
                        assert forall|e2: int, m2: int| #[trigger]
                            self.solvable(e2, m2) implies self.work@.contains(e2 as u32) by {
                            assert(restored.solvable(e2, m2));
                            assert(self.parity_at(e2) is Some);
                            if popped.solvable(e2, m2) && !(popped.equation_start(e2) <= m <= e2) {
                                assert(head.solvable(e2, m2));
                                let j = choose|j: int|
                                    0 <= j < head.work@.len() && head.work@[j] == e2 as u32;
                                assert(e2 != e);
                                assert(j != head.work@.len() - 1);
                                assert(popped.work@[j] == e2 as u32);
                                assert(self.work@[j] == e2 as u32);
                            }
                        }
                        // every known frame is delivered
                        assert forall|i: int|
                            0 <= i < self.slots.len() && #[trigger] self.slots@[i].occupied
                            && self.slots@[i].has_data implies self.slots@[i].delivered by {
                            if i != idx {
                                assert(self.slots@[i] == head.slots@[i]);
                            } else {
                                assert(self.delivered_at(m));
                            }
                        }
                        if kind == PacketKind::Data {
                            assert(popped.data_at(sequence as int) == head.data_at(sequence as int));
                            assert(data0 is Some);
                            assert(m != sequence);
                            assert(self.data_at(sequence as int) == popped.data_at(sequence as int));
                        }
                        // the frames handed out so far, in order of restoring
                        let fc = listed.subrange(prior.len() as int, listed.len() as int);
                        let fnw = delivered@.subrange(prior.len() as int, delivered@.len() as int);
                        let n = fc.len() as int;
                        assert(fnw =~= fc.push(delivered@.last()));
                        assert(fnw.subrange(0, n) =~= fc);
                        assert(fc.subrange(0, n) =~= fc);
                        old0.lemma_known_after_prefix(fc, fnw, n);
                        assert forall|j: int| 0 <= j < n implies (#[trigger] fc[j]).0 != m by {
                            assert(fc[j] == listed[prior.len() + j]);
                            assert(popped.data_at(listed[prior.len() + j].0 as int) is Some);
                        }
                        old0.lemma_known_after_absent(fc, n, m);
                        assert forall|t: int| #[trigger] self.data_at(t) is Some implies self.data_at(t)
                            == old0.known_after(fnw, n + 1, t) by {
                            if t != m {
                                assert(self.data_at(t) == popped.data_at(t));
                                assert(popped.data_at(t) == head.data_at(t));
                            }
                        }
                        assert forall|i: int| first <= i < n + 1 implies #[trigger] old0.restored_by_peeling(
                            self,
                            fnw,
                            i,
                        ) by {
                            if i < n {
                                assert(old0.restored_by_peeling(&head, fc, i));
                                let si = fc[i].0 as int;
                                assert(fc[i] == listed[prior.len() + i]);
                                assert(popped.data_at(si) is Some);
                                assert(popped.recent(si));
                                assert forall|e2: int|
                                    e2 >= fc[i].0 && (#[trigger] head.parity_at(e2)) is Some implies self.parity_at(
                                    e2,
                                ) == head.parity_at(e2) by {
                                    assert(popped.parity_at(e2) == head.parity_at(e2));
                                }
                                assert(fc.subrange(0, i + 1) =~= fnw.subrange(0, i + 1));
                                old0.lemma_restored_extend(&head, self, fc, fnw, i);
                            } else {
                                assert(self.parity_at(e) == popped.parity_at(e));
                                assert(fnw[n] == delivered@.last());
                                assert(fnw[n].0 == m);
                                assert forall|k: int|
                                    old0.equation_start(e) <= k <= e && k != m implies (
                                    #[trigger] old0.known_after(fnw, n, k)) is Some by {
                                    assert(popped.data_at(k) is Some);
                                    assert(head.data_at(k) == old0.known_after(fc, n, k));
                                }
                                assert forall|k: int| old0.equation_start(e) <= k <= e implies #[trigger] popped.known_or_zero()(k)
                                    == old0.known_after_or_zero(fnw, n)(k) by {
                                    if k != m {
                                        assert(popped.data_at(k) is Some);
                                        assert(head.data_at(k) == old0.known_after(fc, n, k));
                                    }
                                }
                                crate::lemma_xor_range_agree(
                                    popped.known_or_zero(),
                                    old0.known_after_or_zero(fnw, n),
                                    old0.equation_start(e),
                                    e,
                                );
                                assert(old0.restored_by_peeling(self, fnw, n));
                            }
                        }
                        // the list of deliveries
                        let n_old = delivered@.len() - 1;
                        assert(delivered@.subrange(0, prior.len() as int) =~= prior) by {
                            assert(delivered@.drop_last().subrange(0, prior.len() as int) == prior);
                        }
                        assert forall|i: int| prior.len() <= i < delivered@.len() implies old0.data_at(
                            #[trigger] delivered@[i].0 as int,
                        ) is None && self.data_at(delivered@[i].0 as int) == Some(delivered@[i].1@) by {
                            if i < n_old {
                                let t = delivered@[i].0 as int;
                                assert(delivered@[i] == delivered@.drop_last()[i]);
                                assert(popped.data_at(t) is Some);
                                assert(popped.recent(t));
                                assert(t != m);
                            }
                        }
                        assert forall|i: int, j: int|
                            prior.len() <= i < j < delivered@.len() implies #[trigger] delivered@[i].0
                            != #[trigger] delivered@[j].0 by {
                            assert(delivered@[i] == delivered@.drop_last()[i]);
                            if j < n_old {
                                assert(delivered@[j] == delivered@.drop_last()[j]);
                            } else {
                                assert(popped.data_at(delivered@[i].0 as int) is Some);
                            }
                        }
                        assert forall|t: int| #[trigger]
                            self.data_at(t) is Some && old0.data_at(t) is None implies exists|i: int|
                                prior.len() <= i < delivered@.len() && #[trigger] delivered@[i].0 == t by {
                            if t == m {
                                assert(delivered@[n_old as int].0 == t);
                            } else {
                                assert(popped.data_at(t) is Some);
                                let i = choose|i: int|
                                    prior.len() <= i < n_old && #[trigger] delivered@[i].0 == t;
                                assert(delivered@[i].0 == t);
                            }
                        }
                        // soundness
                        assert forall|frames: spec_fn(int) -> Seq<u8>|
                            #[trigger] old0.consistent_with(frames) && old0.packet_consistent_with(
                                frames,
                                sequence as int,
                                kind,
                                payload,
                            ) implies self.consistent_with(frames) by {
                            assert(popped.consistent_with(frames));
                            assert(restored.consistent_with(frames));
                        }
                        // termination
                        assert(!popped.counts(idx));
                        assert(self.slots@[idx].sequence == m);
                        assert(self.counts(idx));
                        popped.lemma_known_count_step(self, idx, self.slots.len() as int);
                        self.lemma_known_count_bound(self.slots.len() as int);
                    }
                },
                None => {
                    proof {
                        assert forall|e: int, m: int| #[trigger]
                            self.solvable(e, m) implies self.work@.contains(e as u32) by {
                            assert(head.solvable(e, m));
                            let j = choose|j: int| 0 <= j < head.work@.len() && head.work@[j] == e as u32;
                            assert(e != endpoint);
                            assert(j != head.work@.len() - 1);
                            assert(self.work@[j] == e as u32);
                        }
                        let fresh = delivered@.subrange(prior.len() as int, delivered@.len() as int);
                        assert forall|i: int|
                            first <= i < fresh.len() implies #[trigger] old0.restored_by_peeling(
                            self,
                            fresh,
                            i,
                        ) by {
                            assert(old0.restored_by_peeling(&head, fresh, i));
                            assert forall|e2: int|
                                e2 >= fresh[i].0 && (#[trigger] head.parity_at(e2)) is Some implies self.parity_at(
                                e2,
                            ) == head.parity_at(e2) by {
                                assert(popped.parity_at(e2) == head.parity_at(e2));
                            }
                            old0.lemma_restored_extend(&head, self, fresh, fresh, i);
                        }
                    }
                },
            }
        }
        proof {
            let fresh = delivered@.subrange(prior.len() as int, delivered@.len() as int);
            assert forall|i: int| 0 <= i < fresh.len() implies old0.data_at(
                #[trigger] fresh[i].0 as int,
            ) is None && self.data_at(fresh[i].0 as int) == Some(fresh[i].1@) by {
                assert(fresh[i] == delivered@[prior.len() + i]);
            }
            assert forall|i: int, j: int| 0 <= i < j < fresh.len() implies #[trigger] fresh[i].0
                != #[trigger] fresh[j].0 by {
                assert(fresh[i] == delivered@[prior.len() + i]);
                assert(fresh[j] == delivered@[prior.len() + j]);
            }
            assert forall|t: int| #[trigger]
                self.data_at(t) is Some && old0.data_at(t) is None implies exists|i: int|
                    0 <= i < fresh.len() && #[trigger] fresh[i].0 == t by {
                let k = choose|k: int| prior.len() <= k < delivered@.len() && #[trigger] delivered@[k].0 == t;
                assert(fresh[k - prior.len()] == delivered@[k]);
            }
            if first == 1 {
                assert(fresh[0] == delivered@[prior.len() as int]);
            }
        }
    }
}

} // verus!
