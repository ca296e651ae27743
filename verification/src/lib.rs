//! Forward error correction for a lossy, reordering datagram link.
//!
//! Every media frame is sent once as a data packet and, when the redundancy
//! budget allows, once more as part of a causal XOR equation over the last
//! few frames.  The receiver solves those equations by peeling.
use vstd::prelude::*;

pub mod config;
pub mod protocol;
pub mod recovery;
pub mod runs;
pub mod sender;

verus! {

/// Size of every media frame, in bytes.
pub const PAYLOAD_BYTES: usize = 160;

/// One media frame.
pub type Payload = [u8; PAYLOAD_BYTES];

/// Byte-wise exclusive or of two byte strings of equal length.
pub open spec fn xor_bytes(a: Seq<u8>, b: Seq<u8>) -> Seq<u8> {
    Seq::new(a.len(), |i: int| a[i] ^ b[i])
}

/// The all-zero frame, neutral for `xor_bytes`.
pub open spec fn zero_payload() -> Seq<u8> {
    Seq::new(PAYLOAD_BYTES as nat, |i: int| 0u8)
}

/// XOR of the frames `frames(k)` for `first <= k <= last` (the zero frame for
/// an empty range), folded from the first frame to the last.
pub open spec fn xor_range(frames: spec_fn(int) -> Seq<u8>, first: int, last: int) -> Seq<u8>
    decreases last - first + 1,
{
    if last < first {
        zero_payload()
    } else {
        xor_bytes(xor_range(frames, first, last - 1), frames(last))
    }
}

/// Every frame of `frames` in `[first, last]` has the frame size.
pub open spec fn frames_sized(frames: spec_fn(int) -> Seq<u8>, first: int, last: int) -> bool {
    forall|k: int| first <= k <= last ==> (#[trigger] frames(k)).len() == PAYLOAD_BYTES
}

/// The XOR of payload-sized frames is payload-sized.
pub proof fn lemma_xor_range_len(frames: spec_fn(int) -> Seq<u8>, first: int, last: int)
    requires
        frames_sized(frames, first, last),
    ensures
        xor_range(frames, first, last).len() == PAYLOAD_BYTES,
    decreases last - first + 1,
{
    if last >= first {
        lemma_xor_range_len(frames, first, last - 1);
    }
}

/// XORing the same frame in twice cancels it.
pub proof fn lemma_xor_cancel(a: Seq<u8>, b: Seq<u8>)
    requires
        a.len() == b.len(),
    ensures
        xor_bytes(xor_bytes(a, b), a) == b,
{
    assert forall|i: int| 0 <= i < a.len() implies #[trigger] xor_bytes(xor_bytes(a, b), a)[i]
        == b[i] by {
        let x = a[i];
        let y = b[i];
        assert((x ^ y) ^ x == y) by (bit_vector);
    }
    assert(xor_bytes(xor_bytes(a, b), a) =~= b);
}

/// Two frames XORed into an accumulator may come in either order.
pub proof fn lemma_xor_swap(g: Seq<u8>, x: Seq<u8>, y: Seq<u8>)
    requires
        g.len() == x.len(),
        g.len() == y.len(),
    ensures
        xor_bytes(xor_bytes(g, x), y) == xor_bytes(xor_bytes(g, y), x),
{
    assert forall|i: int| 0 <= i < g.len() implies #[trigger] xor_bytes(xor_bytes(g, x), y)[i]
        == xor_bytes(xor_bytes(g, y), x)[i] by {
        let a = g[i];
        let b = x[i];
        let c = y[i];
        assert((a ^ b) ^ c == (a ^ c) ^ b) by (bit_vector);
    }
    assert(xor_bytes(xor_bytes(g, x), y) =~= xor_bytes(xor_bytes(g, y), x));
}

/// XORing the zero frame changes nothing.
pub proof fn lemma_xor_zero(g: Seq<u8>)
    requires
        g.len() == PAYLOAD_BYTES,
    ensures
        xor_bytes(g, zero_payload()) == g,
{
    assert forall|i: int| 0 <= i < g.len() implies #[trigger] xor_bytes(g, zero_payload())[i]
        == g[i] by {
        let a = g[i];
        assert(a ^ 0u8 == a) by (bit_vector);
    }
    assert(xor_bytes(g, zero_payload()) =~= g);
}

/// The XOR over a range depends only on the frames in it.
pub proof fn lemma_xor_range_agree(
    f: spec_fn(int) -> Seq<u8>,
    g: spec_fn(int) -> Seq<u8>,
    first: int,
    last: int,
)
    requires
        forall|k: int| first <= k <= last ==> #[trigger] f(k) == g(k),
    ensures
        xor_range(f, first, last) == xor_range(g, first, last),
    decreases last - first + 1,
{
    if last >= first {
        lemma_xor_range_agree(f, g, first, last - 1);
    }
}

/// Byte-wise XOR is associative.
pub proof fn lemma_xor_assoc(a: Seq<u8>, b: Seq<u8>, c: Seq<u8>)
    requires
        a.len() == b.len(),
        a.len() == c.len(),
    ensures
        xor_bytes(xor_bytes(a, b), c) == xor_bytes(a, xor_bytes(b, c)),
{
    assert forall|i: int| 0 <= i < a.len() implies #[trigger] xor_bytes(xor_bytes(a, b), c)[i]
        == xor_bytes(a, xor_bytes(b, c))[i] by {
        let x = a[i];
        let y = b[i];
        let z = c[i];
        assert((x ^ y) ^ z == x ^ (y ^ z)) by (bit_vector);
    }
    assert(xor_bytes(xor_bytes(a, b), c) =~= xor_bytes(a, xor_bytes(b, c)));
}

/// Byte-wise XOR is commutative.
pub proof fn lemma_xor_commute(a: Seq<u8>, b: Seq<u8>)
    requires
        a.len() == b.len(),
    ensures
        xor_bytes(a, b) == xor_bytes(b, a),
{
    assert forall|i: int| 0 <= i < a.len() implies #[trigger] xor_bytes(a, b)[i] == xor_bytes(
        b,
        a,
    )[i] by {
        let x = a[i];
        let y = b[i];
        assert(x ^ y == y ^ x) by (bit_vector);
    }
    assert(xor_bytes(a, b) =~= xor_bytes(b, a));
}

/// If `known` agrees with `frames` on `[first, last]` except at `hole`, where
/// it holds the zero frame, then the XOR of all of `frames` is the XOR of
/// `known` with the missing frame.  This is what lets one equation restore
/// one missing frame.
pub proof fn lemma_xor_range_with_hole(
    frames: spec_fn(int) -> Seq<u8>,
    known: spec_fn(int) -> Seq<u8>,
    first: int,
    last: int,
    hole: int,
)
    requires
        first <= hole <= last,
        frames_sized(frames, first, last),
        frames_sized(known, first, last),
        forall|k: int| first <= k <= last && k != hole ==> #[trigger] frames(k) == known(k),
        known(hole) == zero_payload(),
    ensures
        xor_range(frames, first, last) == xor_bytes(xor_range(known, first, last), frames(hole)),
    decreases last - first + 1,
{
    lemma_xor_range_len(frames, first, last - 1);
    lemma_xor_range_len(known, first, last - 1);
    if last == hole {
        lemma_xor_range_agree(frames, known, first, last - 1);
        lemma_xor_zero(xor_range(known, first, last - 1));
    } else {
        lemma_xor_range_with_hole(frames, known, first, last - 1, hole);
        lemma_xor_swap(xor_range(known, first, last - 1), frames(hole), frames(last));
    }
}

/// XORs `other` into `target`, byte by byte.
pub fn xor_in_place(target: &mut Payload, other: &Payload)
    ensures
        final(target)@ == xor_bytes(old(target)@, other@),
{
    let ghost before = target@;
    let mut i: usize = 0;
    while i < PAYLOAD_BYTES
        invariant
            0 <= i <= PAYLOAD_BYTES,
            target@.len() == PAYLOAD_BYTES,
            before.len() == PAYLOAD_BYTES,
            other@.len() == PAYLOAD_BYTES,
            forall|j: int| 0 <= j < i ==> target@[j] == before[j] ^ other@[j],
            forall|j: int| i <= j < PAYLOAD_BYTES ==> target@[j] == before[j],
        decreases PAYLOAD_BYTES - i,
    {
        let byte = target[i] ^ other[i];
        target[i] = byte;
        i = i + 1;
    }
    assert(target@ =~= xor_bytes(before, other@));
}

/// The byte-wise XOR of two frames.
pub fn xor_payloads(left: &Payload, right: &Payload) -> (result: Payload)
    ensures
        result@ == xor_bytes(left@, right@),
{
    let mut result = *left;
    xor_in_place(&mut result, right);
    result
}

/// The smallest power of two, starting the search at `p`, that is at least `n`.
pub open spec fn power_of_two_from(n: nat, p: nat) -> nat
    decreases (if p >= n {
        0
    } else {
        n - p
    }),
    when p >= 1
{
    if p >= n {
        p
    } else {
        power_of_two_from(n, 2 * p)
    }
}

/// The smallest power of two that is at least `n` (1 for 0).
pub open spec fn next_power_of_two_spec(n: nat) -> nat {
    power_of_two_from(n, 1)
}

/// The search never returns less than its starting point or its target.
pub proof fn lemma_power_of_two_from_bounds(n: nat, p: nat)
    requires
        p >= 1,
    ensures
        power_of_two_from(n, p) >= p,
        power_of_two_from(n, p) >= n,
    decreases (if p >= n {
        0
    } else {
        n - p
    }),
{
    if p < n {
        lemma_power_of_two_from_bounds(n, 2 * p);
    }
}

/// A larger target never gives a smaller power of two.
pub proof fn lemma_power_of_two_from_monotone(n1: nat, n2: nat, p: nat)
    requires
        p >= 1,
        n1 <= n2,
    ensures
        power_of_two_from(n1, p) <= power_of_two_from(n2, p),
    decreases (if p >= n2 {
        0
    } else {
        n2 - p
    }),
{
    if p >= n1 && p < n2 {
        lemma_power_of_two_from_bounds(n2, 2 * p);
    } else if p < n1 {
        lemma_power_of_two_from_monotone(n1, n2, 2 * p);
    }
}

/// The search from a power of two ends at a power of two.
pub proof fn lemma_power_of_two_from_is_power(n: nat, k: nat)
    ensures
        exists|j: nat|
            #[trigger] vstd::arithmetic::power2::pow2(j) == power_of_two_from(
                n,
                vstd::arithmetic::power2::pow2(k),
            ),
    decreases (if vstd::arithmetic::power2::pow2(k) >= n {
        0
    } else {
        n - vstd::arithmetic::power2::pow2(k)
    }),
{
    vstd::arithmetic::power2::lemma_pow2_pos(k);
    vstd::arithmetic::power2::lemma_pow2_unfold(k + 1);
    if vstd::arithmetic::power2::pow2(k) < n {
        lemma_power_of_two_from_is_power(n, k + 1);
    } else {
        assert(vstd::arithmetic::power2::pow2(k) == power_of_two_from(n, vstd::arithmetic::power2::pow2(k)));
    }
}

/// The smallest power of two at least `n`, with its exponent.
pub(crate) fn next_power_of_two(n: usize) -> (result: (usize, Ghost<nat>))
    requires
        n <= usize::MAX / 2 + 1,
    ensures
        result.0 == next_power_of_two_spec(n as nat),
        result.0 == vstd::arithmetic::power2::pow2(result.1@),
        result.0 >= n,
        result.0 >= 1,
        n >= 1 ==> result.0 < 2 * n,
{
    let mut p: usize = 1;
    let ghost mut k: nat = 0;
    proof {
        vstd::arithmetic::power2::lemma2_to64();
    }
    while p < n
        invariant
            n <= usize::MAX / 2 + 1,
            1 <= p,
            n >= 1 ==> p < 2 * n,
            p == vstd::arithmetic::power2::pow2(k),
            power_of_two_from(n as nat, p as nat) == next_power_of_two_spec(n as nat),
        decreases usize::MAX - p,
    {
        proof {
            vstd::arithmetic::power2::lemma_pow2_unfold(k + 1);
        }
        p = p * 2;
        proof {
            k = k + 1;
        }
    }
    (p, Ghost(k))
}

} // verus!
