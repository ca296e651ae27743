//! Laws over whole runs of `RecoveryWindow::ingest` calls.
use vstd::prelude::*;

use crate::protocol::PacketKind;
use crate::recovery::RecoveryWindow;
use crate::{xor_bytes, xor_range, Payload};

verus! {

/// The sequence numbers of the data packets among the first `n` packets.
pub open spec fn data_sequences(sequences: Seq<u32>, kinds: Seq<PacketKind>, n: int) -> Set<int> {
    Set::new(
        |t: int|
            exists|i: int|
                0 <= i < n && kinds[i] == PacketKind::Data && #[trigger] sequences[i] == t,
    )
}

/// The sequence numbers of the parity packets among the first `n` packets.
pub open spec fn parity_sequences(sequences: Seq<u32>, kinds: Seq<PacketKind>, n: int) -> Set<
    int,
> {
    Set::new(
        |t: int|
            exists|i: int|
                0 <= i < n && kinds[i] == PacketKind::Parity && #[trigger] sequences[i] == t,
    )
}

/// The sequence numbers whose frame `window` knows.
pub open spec fn known_set(window: &RecoveryWindow) -> Set<int> {
    Set::new(|t: int| window.data_at(t) is Some)
}

/// The sequence numbers at which `window` holds an equation's parity.
pub open spec fn held_set(window: &RecoveryWindow) -> Set<int> {
    Set::new(|e: int| window.parity_at(e) is Some)
}

/// No equation ending in `parities` (of `window`'s width) misses exactly one
/// member of `known`.
pub open spec fn closed_under(window: &RecoveryWindow, known: Set<int>, parities: Set<int>) -> bool {
    forall|e: int, m: int|
        #![trigger parities.contains(e), known.contains(m)]
        parities.contains(e) && window.equation_start(e) <= m <= e && !known.contains(m)
            ==> exists|k: int|
            window.equation_start(e) <= k <= e && k != m && !(#[trigger] known.contains(k))
}

/// `windows[i + 1]` is what `ingest` made of `windows[i]` for the `i`-th
/// packet (sequence, kind and payload), which handed out `fresh[i]`.
pub open spec fn ingest_run(
    windows: Seq<RecoveryWindow>,
    sequences: Seq<u32>,
    kinds: Seq<PacketKind>,
    payloads: Seq<Seq<u8>>,
    fresh: Seq<Seq<(u32, Payload)>>,
) -> bool {
    &&& windows.len() == sequences.len() + 1
    &&& kinds.len() == sequences.len()
    &&& payloads.len() == sequences.len()
    &&& fresh.len() == sequences.len()
    &&& forall|i: int|
        0 <= i < sequences.len() ==> #[trigger] windows[i].ingested(
            &windows[i + 1],
            sequences[i],
            kinds[i],
            payloads[i],
            fresh[i],
        )
}

/// A run that starts from an empty window and in which every sequence
/// number stays below the capacity, so that nothing goes stale.
pub open spec fn quiet_run(
    windows: Seq<RecoveryWindow>,
    sequences: Seq<u32>,
    kinds: Seq<PacketKind>,
    payloads: Seq<Seq<u8>>,
    fresh: Seq<Seq<(u32, Payload)>>,
) -> bool {
    &&& ingest_run(windows, sequences, kinds, payloads, fresh)
    &&& windows[0].newest() is None
    &&& windows[0].capacity() <= 0x8000_0000
    &&& forall|t: int| #[trigger] windows[0].data_at(t) is None
    &&& forall|t: int| #[trigger] windows[0].parity_at(t) is None
    &&& forall|i: int| 0 <= i < sequences.len() ==> #[trigger] sequences[i] < windows[0].capacity()
}

/// Along a quiet run: the shape is kept, the newest sequence stays below the
/// capacity, the held parities are those of the parity packets so far, and
/// every data packet so far is known.
proof fn lemma_quiet_prefix(
    windows: Seq<RecoveryWindow>,
    sequences: Seq<u32>,
    kinds: Seq<PacketKind>,
    payloads: Seq<Seq<u8>>,
    fresh: Seq<Seq<(u32, Payload)>>,
    j: int,
)
    requires
        quiet_run(windows, sequences, kinds, payloads, fresh),
        0 <= j <= sequences.len(),
    ensures
        windows[j].capacity() == windows[0].capacity(),
        windows[j].fec_width() == windows[0].fec_width(),
        windows[j].newest() matches Some(n) ==> n < windows[0].capacity(),
        held_set(&windows[j]) == parity_sequences(sequences, kinds, j),
        data_sequences(sequences, kinds, j).subset_of(known_set(&windows[j])),
    decreases j,
{
    if j == 0 {
        assert(held_set(&windows[0]) =~= parity_sequences(sequences, kinds, 0));
    } else {
        let i = j - 1;
        lemma_quiet_prefix(windows, sequences, kinds, payloads, fresh, i);
        let before = windows[i];
        let after = windows[j];
        assert(windows[i].ingested(&windows[i + 1], sequences[i], kinds[i], payloads[i], fresh[i]));
        assert(windows[i + 1] == after);
        assert(!before.stale(sequences[i] as int));
        assert forall|t: int| t >= 0 implies !#[trigger] after.stale(t) by {}
        assert(held_set(&after) =~= parity_sequences(sequences, kinds, j)) by {
            assert forall|e: int| #[trigger] held_set(&after).contains(e) implies parity_sequences(
                sequences,
                kinds,
                j,
            ).contains(e) by {
                if after.parity_at(e) != before.parity_at(e) {
                    assert(sequences[i] == e);
                } else {
                    assert(held_set(&before).contains(e));
                    let k = choose|k: int|
                        0 <= k < i && kinds[k] == PacketKind::Parity && #[trigger] sequences[k] == e;
                    assert(sequences[k] == e);
                }
            }
            assert forall|e: int| #[trigger] parity_sequences(sequences, kinds, j).contains(
                e,
            ) implies held_set(&after).contains(e) by {
                let k = choose|k: int|
                    0 <= k < j && kinds[k] == PacketKind::Parity && #[trigger] sequences[k] == e;
                if k < i {
                    assert(parity_sequences(sequences, kinds, i).contains(e));
                    assert(before.parity_at(e) is Some);
                    assert(!after.stale(e));
                }
            }
        }
        assert forall|t: int| #[trigger] data_sequences(sequences, kinds, j).contains(
            t,
        ) implies known_set(&after).contains(t) by {
            let k = choose|k: int|
                0 <= k < j && kinds[k] == PacketKind::Data && #[trigger] sequences[k] == t;
            if k < i {
                assert(data_sequences(sequences, kinds, i).contains(t));
                assert(before.data_at(t) is Some);
                assert(!after.stale(t));
            }
        }
    }
}

/// At the end of a quiet run, every data packet's frame is known, the held
/// parities are exactly those of the parity packets, and no held equation
/// misses exactly one frame: the known frames are closed under peeling.
pub proof fn lemma_quiet_run_closed(
    windows: Seq<RecoveryWindow>,
    sequences: Seq<u32>,
    kinds: Seq<PacketKind>,
    payloads: Seq<Seq<u8>>,
    fresh: Seq<Seq<(u32, Payload)>>,
)
    requires
        quiet_run(windows, sequences, kinds, payloads, fresh),
    ensures
        ({
            let n = sequences.len() as int;
            let last = windows[n];
            &&& data_sequences(sequences, kinds, n).subset_of(known_set(&last))
            &&& held_set(&last) == parity_sequences(sequences, kinds, n)
            &&& closed_under(&last, known_set(&last), held_set(&last))
        }),
{
    let n = sequences.len() as int;
    let last = windows[n];
    lemma_quiet_prefix(windows, sequences, kinds, payloads, fresh, n);
    if n > 0 {
        assert(windows[n - 1].ingested(
            &windows[n - 1 + 1],
            sequences[n - 1],
            kinds[n - 1],
            payloads[n - 1],
            fresh[n - 1],
        ));
        assert(last.peeling_closed());
    }
    assert forall|e: int, m: int|
        #![trigger held_set(&last).contains(e), known_set(&last).contains(m)]
        held_set(&last).contains(e) && last.equation_start(e) <= m <= e && !known_set(
            &last,
        ).contains(m) implies exists|k: int|
        last.equation_start(e) <= k <= e && k != m && !(#[trigger] known_set(&last).contains(
            k,
        )) by {
        if n == 0 {
            assert(windows[0].parity_at(e) is None);
        }
        if !(exists|k: int|
            last.equation_start(e) <= k <= e && k != m && !(#[trigger] known_set(&last).contains(
                k,
            ))) {
            assert forall|k: int| last.equation_start(e) <= k <= e && k != m implies (
            #[trigger] last.data_at(k)) is Some by {
                assert(known_set(&last).contains(k));
            }
            assert(!last.stale(m));
            assert(last.solvable(e, m));
        }
    }
}

/// The entries handed out by the `j`-th call of a quiet run lie in every set
/// that holds what was known before that call and every data packet, and that
/// no equation held at the end leaves with exactly one member outside.
proof fn lemma_fresh_in_closed(
    windows: Seq<RecoveryWindow>,
    sequences: Seq<u32>,
    kinds: Seq<PacketKind>,
    payloads: Seq<Seq<u8>>,
    fresh: Seq<Seq<(u32, Payload)>>,
    closed: Set<int>,
    j: int,
    i: int,
)
    requires
        quiet_run(windows, sequences, kinds, payloads, fresh),
        0 <= j < sequences.len(),
        known_set(&windows[j]).subset_of(closed),
        data_sequences(sequences, kinds, sequences.len() as int).subset_of(closed),
        closed_under(&windows[sequences.len() as int], closed, held_set(&windows[sequences.len() as int])),
        0 <= i <= fresh[j].len(),
    ensures
        forall|x: int| 0 <= x < i ==> closed.contains(#[trigger] fresh[j][x].0 as int),
    decreases i,
{
    if i > 0 {
        lemma_fresh_in_closed(windows, sequences, kinds, payloads, fresh, closed, j, i - 1);
        let n = sequences.len() as int;
        let x = i - 1;
        let before = windows[j];
        let after = windows[j + 1];
        let f = fresh[j];
        let m = f[x].0 as int;
        assert(before.ingested(&after, sequences[j], kinds[j], payloads[j], f));
        lemma_quiet_prefix(windows, sequences, kinds, payloads, fresh, j);
        lemma_quiet_prefix(windows, sequences, kinds, payloads, fresh, j + 1);
        lemma_quiet_prefix(windows, sequences, kinds, payloads, fresh, n);
        assert(!before.stale(sequences[j] as int));
        let first = if kinds[j] == PacketKind::Data && before.data_at(sequences[j] as int) is None {
            1int
        } else {
            0int
        };
        if x < first {
            assert(data_sequences(sequences, kinds, n).contains(m));
        } else {
            assert(before.restored_by_peeling(&after, f, x));
            let e = choose|e: int|
                #![trigger after.parity_at(e)]
                {
                    &&& after.parity_at(e) is Some
                    &&& before.equation_start(e) <= m <= e
                    &&& before.known_after(f, x, m) is None
                    &&& forall|k: int|
                        before.equation_start(e) <= k <= e && k != m ==> (
                        #[trigger] before.known_after(f, x, k)) is Some
                    &&& f[x].1@ == xor_bytes(
                        after.parity_at(e)->0,
                        xor_range(before.known_after_or_zero(f, x), before.equation_start(e), e),
                    )
                };
            assert(held_set(&after).contains(e));
            assert(parity_sequences(sequences, kinds, j + 1).contains(e));
            let k0 = choose|k0: int|
                0 <= k0 < j + 1 && kinds[k0] == PacketKind::Parity && #[trigger] sequences[k0] == e;
            assert(parity_sequences(sequences, kinds, n).contains(e));
            assert(held_set(&windows[n]).contains(e));
            if !closed.contains(m) {
                let k = choose|k: int|
                    windows[n].equation_start(e) <= k <= e && k != m && !(#[trigger] closed.contains(k));
                assert(before.known_after(f, x, k) is Some);
                before.lemma_known_after_source(f, x, k);
                if before.data_at(k) is Some {
                    assert(known_set(&before).contains(k));
                } else {
                    let y = choose|y: int| 0 <= y < x && (#[trigger] f[y]).0 == k;
                    assert(closed.contains(f[y].0 as int));
                }
            }
        }
    }
}

/// The frames known at the end of a quiet run lie in every set that holds
/// every data packet and that no held equation leaves with exactly one
/// member outside: they are the least set closed under peeling.
pub proof fn lemma_quiet_run_least(
    windows: Seq<RecoveryWindow>,
    sequences: Seq<u32>,
    kinds: Seq<PacketKind>,
    payloads: Seq<Seq<u8>>,
    fresh: Seq<Seq<(u32, Payload)>>,
    closed: Set<int>,
)
    requires
        quiet_run(windows, sequences, kinds, payloads, fresh),
        data_sequences(sequences, kinds, sequences.len() as int).subset_of(closed),
        closed_under(&windows[sequences.len() as int], closed, held_set(&windows[sequences.len() as int])),
    ensures
        known_set(&windows[sequences.len() as int]).subset_of(closed),
{
    lemma_known_prefix_in_closed(windows, sequences, kinds, payloads, fresh, closed, sequences.len() as int);
}

proof fn lemma_known_prefix_in_closed(
    windows: Seq<RecoveryWindow>,
    sequences: Seq<u32>,
    kinds: Seq<PacketKind>,
    payloads: Seq<Seq<u8>>,
    fresh: Seq<Seq<(u32, Payload)>>,
    closed: Set<int>,
    j: int,
)
    requires
        quiet_run(windows, sequences, kinds, payloads, fresh),
        data_sequences(sequences, kinds, sequences.len() as int).subset_of(closed),
        closed_under(&windows[sequences.len() as int], closed, held_set(&windows[sequences.len() as int])),
        0 <= j <= sequences.len(),
    ensures
        known_set(&windows[j]).subset_of(closed),
    decreases j,
{
    if j > 0 {
        let i = j - 1;
        lemma_known_prefix_in_closed(windows, sequences, kinds, payloads, fresh, closed, i);
        let before = windows[i];
        let after = windows[j];
        assert(windows[i].ingested(&windows[i + 1], sequences[i], kinds[i], payloads[i], fresh[i]));
        lemma_fresh_in_closed(windows, sequences, kinds, payloads, fresh, closed, i, fresh[i].len() as int);
        assert forall|t: int| #[trigger] known_set(&after).contains(t) implies closed.contains(t) by {
            if before.data_at(t) is Some {
                assert(known_set(&before).contains(t));
            } else {
                let x = choose|x: int| 0 <= x < fresh[i].len() && #[trigger] fresh[i][x].0 == t;
                assert(closed.contains(fresh[i][x].0 as int));
            }
        }
    } else {
        assert(known_set(&windows[0]) =~= Set::<int>::empty());
    }
}

/// What a quiet run recovers does not depend on the order in which its
/// packets arrive: two quiet runs on windows of the same width with the same
/// data packets and the same parity packets end knowing the same frames.
pub proof fn lemma_arrival_order_irrelevant(
    windows1: Seq<RecoveryWindow>,
    sequences1: Seq<u32>,
    kinds1: Seq<PacketKind>,
    payloads1: Seq<Seq<u8>>,
    fresh1: Seq<Seq<(u32, Payload)>>,
    windows2: Seq<RecoveryWindow>,
    sequences2: Seq<u32>,
    kinds2: Seq<PacketKind>,
    payloads2: Seq<Seq<u8>>,
    fresh2: Seq<Seq<(u32, Payload)>>,
)
    requires
        quiet_run(windows1, sequences1, kinds1, payloads1, fresh1),
        quiet_run(windows2, sequences2, kinds2, payloads2, fresh2),
        windows1[0].fec_width() == windows2[0].fec_width(),
        data_sequences(sequences1, kinds1, sequences1.len() as int) == data_sequences(
            sequences2,
            kinds2,
            sequences2.len() as int,
        ),
        parity_sequences(sequences1, kinds1, sequences1.len() as int) == parity_sequences(
            sequences2,
            kinds2,
            sequences2.len() as int,
        ),
    ensures
        known_set(&windows1[sequences1.len() as int]) == known_set(
            &windows2[sequences2.len() as int],
        ),
{
    let n1 = sequences1.len() as int;
    let n2 = sequences2.len() as int;
    let last1 = windows1[n1];
    let last2 = windows2[n2];
    lemma_quiet_run_closed(windows1, sequences1, kinds1, payloads1, fresh1);
    lemma_quiet_run_closed(windows2, sequences2, kinds2, payloads2, fresh2);
    lemma_quiet_prefix(windows1, sequences1, kinds1, payloads1, fresh1, n1);
    lemma_quiet_prefix(windows2, sequences2, kinds2, payloads2, fresh2, n2);
    assert forall|e: int| #[trigger] last1.equation_start(e) == last2.equation_start(e) by {}
    assert(closed_under(&last1, known_set(&last2), held_set(&last1)));
    assert(closed_under(&last2, known_set(&last1), held_set(&last2)));
    lemma_quiet_run_least(windows1, sequences1, kinds1, payloads1, fresh1, known_set(&last2));
    lemma_quiet_run_least(windows2, sequences2, kinds2, payloads2, fresh2, known_set(&last1));
    assert(known_set(&last1) =~= known_set(&last2));
}

/// Over any run of `ingest` calls that starts from a window agreeing with
/// the media stream `frames`, on packets that agree with it, every window
/// agrees with it, every frame handed out is the stream's frame, and after
/// every call no equation is left that could restore a frame.
pub proof fn lemma_run_sound(
    windows: Seq<RecoveryWindow>,
    sequences: Seq<u32>,
    kinds: Seq<PacketKind>,
    payloads: Seq<Seq<u8>>,
    fresh: Seq<Seq<(u32, Payload)>>,
    frames: spec_fn(int) -> Seq<u8>,
)
    requires
        ingest_run(windows, sequences, kinds, payloads, fresh),
        windows[0].consistent_with(frames),
        forall|i: int|
            0 <= i < sequences.len() ==> #[trigger] windows[i].packet_consistent_with(
                frames,
                sequences[i] as int,
                kinds[i],
                payloads[i],
            ),
    ensures
        forall|j: int| 0 <= j <= sequences.len() ==> #[trigger] windows[j].consistent_with(frames),
        forall|j: int| 1 <= j <= sequences.len() ==> #[trigger] windows[j].peeling_closed(),
        forall|j: int, x: int|
            0 <= j < sequences.len() && 0 <= x < fresh[j].len() ==> #[trigger] fresh[j][x].1@
                == frames(fresh[j][x].0 as int),
{
    lemma_run_sound_prefix(windows, sequences, kinds, payloads, fresh, frames, sequences.len() as int);
    assert forall|j: int| 1 <= j <= sequences.len() implies #[trigger] windows[j].peeling_closed() by {
        assert(windows[j - 1].ingested(
            &windows[j - 1 + 1],
            sequences[j - 1],
            kinds[j - 1],
            payloads[j - 1],
            fresh[j - 1],
        ));
    }
    assert forall|j: int, x: int|
        0 <= j < sequences.len() && 0 <= x < fresh[j].len() implies #[trigger] fresh[j][x].1@
        == frames(fresh[j][x].0 as int) by {
        assert(windows[j].ingested(&windows[j + 1], sequences[j], kinds[j], payloads[j], fresh[j]));
        assert(windows[j + 1].consistent_with(frames));
        assert(windows[j + 1].data_at(fresh[j][x].0 as int) == Some(fresh[j][x].1@));
    }
}

proof fn lemma_run_sound_prefix(
    windows: Seq<RecoveryWindow>,
    sequences: Seq<u32>,
    kinds: Seq<PacketKind>,
    payloads: Seq<Seq<u8>>,
    fresh: Seq<Seq<(u32, Payload)>>,
    frames: spec_fn(int) -> Seq<u8>,
    j: int,
)
    requires
        ingest_run(windows, sequences, kinds, payloads, fresh),
        windows[0].consistent_with(frames),
        forall|i: int|
            0 <= i < sequences.len() ==> #[trigger] windows[i].packet_consistent_with(
                frames,
                sequences[i] as int,
                kinds[i],
                payloads[i],
            ),
        0 <= j <= sequences.len(),
    ensures
        forall|i: int| 0 <= i <= j ==> #[trigger] windows[i].consistent_with(frames),
    decreases j,
{
    if j > 0 {
        lemma_run_sound_prefix(windows, sequences, kinds, payloads, fresh, frames, j - 1);
        let i = j - 1;
        assert(windows[i].ingested(&windows[i + 1], sequences[i], kinds[i], payloads[i], fresh[i]));
        assert(windows[i].consistent_with(frames));
        assert(windows[i].packet_consistent_with(frames, sequences[i] as int, kinds[i], payloads[i]));
    }
}

/// The sequence numbers handed out by the first `n` calls of a run.
pub open spec fn handed_sequences(fresh: Seq<Seq<(u32, Payload)>>, n: int) -> Set<int> {
    Set::new(
        |t: int|
            exists|j: int, x: int|
                0 <= j < n && 0 <= x < fresh[j].len() && #[trigger] fresh[j][x].0 == t,
    )
}

/// The frames handed out over a whole run, each with its sequence number.
pub open spec fn handed_out(fresh: Seq<Seq<(u32, Payload)>>) -> Set<(int, Seq<u8>)> {
    Set::new(
        |entry: (int, Seq<u8>)|
            exists|j: int, x: int|
                0 <= j < fresh.len() && 0 <= x < fresh[j].len() && entry == (
                #[trigger] fresh[j][x].0 as int,
                fresh[j][x].1@,
            ),
    )
}

/// Along a run, a frame that a window knows or treats as stale stays known or
/// stale in every later window.
proof fn lemma_known_or_stale_along(
    windows: Seq<RecoveryWindow>,
    sequences: Seq<u32>,
    kinds: Seq<PacketKind>,
    payloads: Seq<Seq<u8>>,
    fresh: Seq<Seq<(u32, Payload)>>,
    a: int,
    b: int,
    t: int,
)
    requires
        ingest_run(windows, sequences, kinds, payloads, fresh),
        0 <= a <= b <= sequences.len(),
        windows[a].data_at(t) is Some || windows[a].stale(t),
    ensures
        windows[b].data_at(t) is Some || windows[b].stale(t),
    decreases b - a,
{
    if a < b {
        assert(windows[a].ingested(&windows[a + 1], sequences[a], kinds[a], payloads[a], fresh[a]));
        crate::recovery::lemma_known_or_stale_persists(&windows[a], &windows[a + 1], t);
        lemma_known_or_stale_along(windows, sequences, kinds, payloads, fresh, a + 1, b, t);
    }
}

/// Over any run of `ingest` calls, no sequence number is handed out twice:
/// two entries handed out at different places (in one call or in two) carry
/// different sequence numbers.
pub proof fn lemma_run_hands_out_once(
    windows: Seq<RecoveryWindow>,
    sequences: Seq<u32>,
    kinds: Seq<PacketKind>,
    payloads: Seq<Seq<u8>>,
    fresh: Seq<Seq<(u32, Payload)>>,
)
    requires
        ingest_run(windows, sequences, kinds, payloads, fresh),
    ensures
        forall|j1: int, x1: int, j2: int, x2: int|
            0 <= j1 < sequences.len() && 0 <= x1 < fresh[j1].len() && 0 <= j2 < sequences.len()
                && 0 <= x2 < fresh[j2].len() && (j1 != j2 || x1 != x2) ==> #[trigger] fresh[j1][x1].0
                != #[trigger] fresh[j2][x2].0,
{
    assert forall|j1: int, x1: int, j2: int, x2: int|
        0 <= j1 < sequences.len() && 0 <= x1 < fresh[j1].len() && 0 <= j2 < sequences.len() && 0
            <= x2 < fresh[j2].len() && (j1 != j2 || x1 != x2) implies #[trigger] fresh[j1][x1].0
        != #[trigger] fresh[j2][x2].0 by {
        if j1 == j2 {
            assert(windows[j1].ingested(
                &windows[j1 + 1],
                sequences[j1],
                kinds[j1],
                payloads[j1],
                fresh[j1],
            ));
            if x1 < x2 {
                assert(fresh[j1][x1].0 != fresh[j1][x2].0);
            } else {
                assert(fresh[j1][x2].0 != fresh[j1][x1].0);
            }
        } else {
            lemma_handed_out_later_differs(windows, sequences, kinds, payloads, fresh, j1, x1, j2, x2);
            lemma_handed_out_later_differs(windows, sequences, kinds, payloads, fresh, j2, x2, j1, x1);
        }
    }
}

proof fn lemma_handed_out_later_differs(
    windows: Seq<RecoveryWindow>,
    sequences: Seq<u32>,
    kinds: Seq<PacketKind>,
    payloads: Seq<Seq<u8>>,
    fresh: Seq<Seq<(u32, Payload)>>,
    j1: int,
    x1: int,
    j2: int,
    x2: int,
)
    requires
        ingest_run(windows, sequences, kinds, payloads, fresh),
        0 <= j1 < sequences.len(),
        0 <= x1 < fresh[j1].len(),
        0 <= j2 < sequences.len(),
        0 <= x2 < fresh[j2].len(),
    ensures
        j1 < j2 ==> fresh[j1][x1].0 != fresh[j2][x2].0,
{
    if j1 < j2 {
        let t = fresh[j1][x1].0 as int;
        assert(windows[j1].ingested(&windows[j1 + 1], sequences[j1], kinds[j1], payloads[j1], fresh[j1]));
        assert(windows[j1 + 1].data_at(t) is Some);
        lemma_known_or_stale_along(windows, sequences, kinds, payloads, fresh, j1 + 1, j2, t);
        let before = windows[j2];
        let after = windows[j2 + 1];
        assert(before.ingested(&after, sequences[j2], kinds[j2], payloads[j2], fresh[j2]));
        let u = fresh[j2][x2].0 as int;
        assert(before.data_at(u) is None);
        assert(after.data_at(u) is Some);
        assert(!before.stale(u));
    }
}

/// In a quiet run, the sequence numbers handed out by the first `j` calls are
/// exactly those whose frame the `j`-th window knows.
proof fn lemma_quiet_handed_are_known(
    windows: Seq<RecoveryWindow>,
    sequences: Seq<u32>,
    kinds: Seq<PacketKind>,
    payloads: Seq<Seq<u8>>,
    fresh: Seq<Seq<(u32, Payload)>>,
    j: int,
)
    requires
        quiet_run(windows, sequences, kinds, payloads, fresh),
        0 <= j <= sequences.len(),
    ensures
        handed_sequences(fresh, j) == known_set(&windows[j]),
    decreases j,
{
    if j == 0 {
        assert(handed_sequences(fresh, 0) =~= known_set(&windows[0]));
    } else {
        let i = j - 1;
        lemma_quiet_handed_are_known(windows, sequences, kinds, payloads, fresh, i);
        lemma_quiet_prefix(windows, sequences, kinds, payloads, fresh, j);
        let before = windows[i];
        let after = windows[j];
        assert(windows[i].ingested(&windows[i + 1], sequences[i], kinds[i], payloads[i], fresh[i]));
        assert forall|t: int| #[trigger] handed_sequences(fresh, j).contains(t) implies known_set(
            &after,
        ).contains(t) by {
            let (k, x) = choose|k: int, x: int|
                0 <= k < j && 0 <= x < fresh[k].len() && #[trigger] fresh[k][x].0 == t;
            assert(!after.stale(t));
            if k < i {
                assert(handed_sequences(fresh, i).contains(t));
                assert(before.data_at(t) is Some);
            } else {
                assert(after.data_at(fresh[i][x].0 as int) is Some);
            }
        }
        assert forall|t: int| #[trigger] known_set(&after).contains(t) implies handed_sequences(
            fresh,
            j,
        ).contains(t) by {
            if before.data_at(t) is Some {
                assert(known_set(&before).contains(t));
                let (k, x) = choose|k: int, x: int|
                    0 <= k < i && 0 <= x < fresh[k].len() && #[trigger] fresh[k][x].0 == t;
                assert(fresh[k][x].0 == t);
            } else {
                let x = choose|x: int| 0 <= x < fresh[i].len() && #[trigger] fresh[i][x].0 == t;
                assert(fresh[i][x].0 == t);
            }
        }
        assert(handed_sequences(fresh, j) =~= known_set(&after));
    }
}

/// What a quiet run hands out does not depend on the order in which its
/// packets arrive.  Two quiet runs on windows of the same width, with the
/// same data packets and the same parity packets, all agreeing with one media
/// stream `frames`, hand out the same frames with the same sequence numbers,
/// and neither hands out a sequence number twice: as multisets, what they
/// hand out is equal.
pub proof fn lemma_arrival_order_hands_out_same(
    windows1: Seq<RecoveryWindow>,
    sequences1: Seq<u32>,
    kinds1: Seq<PacketKind>,
    payloads1: Seq<Seq<u8>>,
    fresh1: Seq<Seq<(u32, Payload)>>,
    windows2: Seq<RecoveryWindow>,
    sequences2: Seq<u32>,
    kinds2: Seq<PacketKind>,
    payloads2: Seq<Seq<u8>>,
    fresh2: Seq<Seq<(u32, Payload)>>,
    frames: spec_fn(int) -> Seq<u8>,
)
    requires
        quiet_run(windows1, sequences1, kinds1, payloads1, fresh1),
        quiet_run(windows2, sequences2, kinds2, payloads2, fresh2),
        windows1[0].fec_width() == windows2[0].fec_width(),
        data_sequences(sequences1, kinds1, sequences1.len() as int) == data_sequences(
            sequences2,
            kinds2,
            sequences2.len() as int,
        ),
        parity_sequences(sequences1, kinds1, sequences1.len() as int) == parity_sequences(
            sequences2,
            kinds2,
            sequences2.len() as int,
        ),
        forall|k: int| (#[trigger] frames(k)).len() == crate::PAYLOAD_BYTES,
        forall|i: int|
            0 <= i < sequences1.len() ==> #[trigger] windows1[i].packet_consistent_with(
                frames,
                sequences1[i] as int,
                kinds1[i],
                payloads1[i],
            ),
        forall|i: int|
            0 <= i < sequences2.len() ==> #[trigger] windows2[i].packet_consistent_with(
                frames,
                sequences2[i] as int,
                kinds2[i],
                payloads2[i],
            ),
    ensures
        handed_out(fresh1) == handed_out(fresh2),
        forall|j1: int, x1: int, j2: int, x2: int|
            0 <= j1 < fresh1.len() && 0 <= x1 < fresh1[j1].len() && 0 <= j2 < fresh1.len() && 0
                <= x2 < fresh1[j2].len() && (j1 != j2 || x1 != x2) ==> #[trigger] fresh1[j1][x1].0
                != #[trigger] fresh1[j2][x2].0,
        forall|j1: int, x1: int, j2: int, x2: int|
            0 <= j1 < fresh2.len() && 0 <= x1 < fresh2[j1].len() && 0 <= j2 < fresh2.len() && 0
                <= x2 < fresh2[j2].len() && (j1 != j2 || x1 != x2) ==> #[trigger] fresh2[j1][x1].0
                != #[trigger] fresh2[j2][x2].0,
{
    let n1 = sequences1.len() as int;
    let n2 = sequences2.len() as int;
    lemma_run_hands_out_once(windows1, sequences1, kinds1, payloads1, fresh1);
    lemma_run_hands_out_once(windows2, sequences2, kinds2, payloads2, fresh2);
    lemma_arrival_order_irrelevant(
        windows1,
        sequences1,
        kinds1,
        payloads1,
        fresh1,
        windows2,
        sequences2,
        kinds2,
        payloads2,
        fresh2,
    );
    lemma_quiet_handed_are_known(windows1, sequences1, kinds1, payloads1, fresh1, n1);
    lemma_quiet_handed_are_known(windows2, sequences2, kinds2, payloads2, fresh2, n2);
    assert(windows1[0].consistent_with(frames));
    assert(windows2[0].consistent_with(frames));
    lemma_run_sound(windows1, sequences1, kinds1, payloads1, fresh1, frames);
    lemma_run_sound(windows2, sequences2, kinds2, payloads2, fresh2, frames);
    lemma_handed_out_is_known(windows1, sequences1, kinds1, payloads1, fresh1, frames);
    lemma_handed_out_is_known(windows2, sequences2, kinds2, payloads2, fresh2, frames);
    assert(handed_out(fresh1) =~= handed_out(fresh2));
}

/// In a quiet run whose handed-out frames are the stream's, what is handed
/// out is each known sequence number of the last window with its frame.
proof fn lemma_handed_out_is_known(
    windows: Seq<RecoveryWindow>,
    sequences: Seq<u32>,
    kinds: Seq<PacketKind>,
    payloads: Seq<Seq<u8>>,
    fresh: Seq<Seq<(u32, Payload)>>,
    frames: spec_fn(int) -> Seq<u8>,
)
    requires
        quiet_run(windows, sequences, kinds, payloads, fresh),
        handed_sequences(fresh, sequences.len() as int) == known_set(
            &windows[sequences.len() as int],
        ),
        forall|j: int, x: int|
            0 <= j < sequences.len() && 0 <= x < fresh[j].len() ==> #[trigger] fresh[j][x].1@
                == frames(fresh[j][x].0 as int),
    ensures
        handed_out(fresh) == Set::new(
            |entry: (int, Seq<u8>)|
                known_set(&windows[sequences.len() as int]).contains(entry.0) && entry.1 == frames(
                    entry.0,
                ),
        ),
{
    let n = sequences.len() as int;
    let target = Set::new(
        |entry: (int, Seq<u8>)|
            known_set(&windows[n]).contains(entry.0) && entry.1 == frames(entry.0),
    );
    assert forall|entry: (int, Seq<u8>)| #[trigger] handed_out(fresh).contains(entry) implies target.contains(
        entry,
    ) by {
        let (j, x) = choose|j: int, x: int|
            0 <= j < fresh.len() && 0 <= x < fresh[j].len() && entry == (
            #[trigger] fresh[j][x].0 as int,
            fresh[j][x].1@,
        );
        assert(handed_sequences(fresh, n).contains(fresh[j][x].0 as int));
    }
    assert forall|entry: (int, Seq<u8>)| #[trigger] target.contains(entry) implies handed_out(
        fresh,
    ).contains(entry) by {
        assert(handed_sequences(fresh, n).contains(entry.0));
        let (j, x) = choose|j: int, x: int|
            0 <= j < n && 0 <= x < fresh[j].len() && #[trigger] fresh[j][x].0 == entry.0;
        assert(fresh[j][x].1@ == frames(fresh[j][x].0 as int));
        assert(entry == (fresh[j][x].0 as int, fresh[j][x].1@));
    }
    assert(handed_out(fresh) =~= target);
}

/// The entries of one call's hand-out, each as its sequence number and frame.
pub open spec fn entries_of(handed: Seq<(u32, Payload)>) -> Seq<(int, Seq<u8>)> {
    handed.map_values(|entry: (u32, Payload)| (entry.0 as int, entry.1@))
}

/// What the first `k` calls of a run handed out, in the order handed out.
pub open spec fn handed_out_list(fresh: Seq<Seq<(u32, Payload)>>, k: int) -> Seq<(int, Seq<u8>)>
    decreases k,
{
    if k <= 0 {
        Seq::empty()
    } else {
        handed_out_list(fresh, k - 1) + entries_of(fresh[k - 1])
    }
}

/// When the entries handed out at different places carry different sequence
/// numbers, the list of what the first `k` calls handed out holds no entry
/// twice and holds exactly the entries of those calls.
proof fn lemma_handed_out_list(fresh: Seq<Seq<(u32, Payload)>>, k: int)
    requires
        0 <= k <= fresh.len(),
        forall|j1: int, x1: int, j2: int, x2: int|
            0 <= j1 < fresh.len() && 0 <= x1 < fresh[j1].len() && 0 <= j2 < fresh.len() && 0
                <= x2 < fresh[j2].len() && (j1 != j2 || x1 != x2) ==> #[trigger] fresh[j1][x1].0
                != #[trigger] fresh[j2][x2].0,
    ensures
        handed_out_list(fresh, k).no_duplicates(),
        forall|entry: (int, Seq<u8>)|
            #[trigger] handed_out_list(fresh, k).contains(entry) <==> exists|j: int, x: int|
                0 <= j < k && 0 <= x < fresh[j].len() && entry == (
                #[trigger] fresh[j][x].0 as int,
                fresh[j][x].1@,
            ),
    decreases k,
{
    if k > 0 {
        lemma_handed_out_list(fresh, k - 1);
        let a = handed_out_list(fresh, k - 1);
        let b = entries_of(fresh[k - 1]);
        let l = handed_out_list(fresh, k);
        assert(l == a + b);
        assert forall|i: int, y: int| 0 <= i < b.len() && 0 <= y < b.len() && i != y implies b[i]
            != b[y] by {
            assert(fresh[k - 1][i].0 != fresh[k - 1][y].0);
        }
        assert forall|i: int, y: int| 0 <= i < a.len() && 0 <= y < b.len() implies a[i] != b[y] by {
            assert(a.contains(a[i]));
            let (j, x) = choose|j: int, x: int|
                0 <= j < k - 1 && 0 <= x < fresh[j].len() && a[i] == (
                #[trigger] fresh[j][x].0 as int,
                fresh[j][x].1@,
            );
            assert(fresh[j][x].0 != fresh[k - 1][y].0);
        }
        vstd::seq_lib::lemma_no_dup_in_concat(a, b);
        assert forall|entry: (int, Seq<u8>)| #[trigger] l.contains(entry) implies exists|
            j: int,
            x: int,
        |
            0 <= j < k && 0 <= x < fresh[j].len() && entry == (
            #[trigger] fresh[j][x].0 as int,
            fresh[j][x].1@,
        ) by {
            let i = choose|i: int| 0 <= i < l.len() && l[i] == entry;
            if i < a.len() {
                assert(a[i] == entry);
                assert(a.contains(entry));
            } else {
                let y = i - a.len();
                assert(b[y] == entry);
                assert(entry == (fresh[k - 1][y].0 as int, fresh[k - 1][y].1@));
            }
        }
        assert forall|entry: (int, Seq<u8>)|
            (exists|j: int, x: int|
                0 <= j < k && 0 <= x < fresh[j].len() && entry == (
                #[trigger] fresh[j][x].0 as int,
                fresh[j][x].1@,
            )) implies #[trigger] l.contains(entry) by {
            let (j, x) = choose|j: int, x: int|
                0 <= j < k && 0 <= x < fresh[j].len() && entry == (
                #[trigger] fresh[j][x].0 as int,
                fresh[j][x].1@,
            );
            if j < k - 1 {
                assert(a.contains(entry));
                let i = choose|i: int| 0 <= i < a.len() && a[i] == entry;
                assert(l[i] == entry);
            } else {
                assert(b[x] == entry);
                assert(l[a.len() + x] == entry);
            }
        }
    }
}

/// What a quiet run hands out does not depend on the order in which its
/// packets arrive, counted with multiplicity: under the conditions of
/// `lemma_arrival_order_hands_out_same`, the multisets of the entries (each
/// a sequence number with its frame) that the two runs hand out over all
/// their calls are equal.
pub proof fn lemma_arrival_order_same_multiset(
    windows1: Seq<RecoveryWindow>,
    sequences1: Seq<u32>,
    kinds1: Seq<PacketKind>,
    payloads1: Seq<Seq<u8>>,
    fresh1: Seq<Seq<(u32, Payload)>>,
    windows2: Seq<RecoveryWindow>,
    sequences2: Seq<u32>,
    kinds2: Seq<PacketKind>,
    payloads2: Seq<Seq<u8>>,
    fresh2: Seq<Seq<(u32, Payload)>>,
    frames: spec_fn(int) -> Seq<u8>,
)
    requires
        quiet_run(windows1, sequences1, kinds1, payloads1, fresh1),
        quiet_run(windows2, sequences2, kinds2, payloads2, fresh2),
        windows1[0].fec_width() == windows2[0].fec_width(),
        data_sequences(sequences1, kinds1, sequences1.len() as int) == data_sequences(
            sequences2,
            kinds2,
            sequences2.len() as int,
        ),
        parity_sequences(sequences1, kinds1, sequences1.len() as int) == parity_sequences(
            sequences2,
            kinds2,
            sequences2.len() as int,
        ),
        forall|k: int| (#[trigger] frames(k)).len() == crate::PAYLOAD_BYTES,
        forall|i: int|
            0 <= i < sequences1.len() ==> #[trigger] windows1[i].packet_consistent_with(
                frames,
                sequences1[i] as int,
                kinds1[i],
                payloads1[i],
            ),
        forall|i: int|
            0 <= i < sequences2.len() ==> #[trigger] windows2[i].packet_consistent_with(
                frames,
                sequences2[i] as int,
                kinds2[i],
                payloads2[i],
            ),
    ensures
        handed_out_list(fresh1, fresh1.len() as int).to_multiset() == handed_out_list(
            fresh2,
            fresh2.len() as int,
        ).to_multiset(),
{
    broadcast use vstd::seq_lib::group_to_multiset_ensures;

    lemma_arrival_order_hands_out_same(
        windows1,
        sequences1,
        kinds1,
        payloads1,
        fresh1,
        windows2,
        sequences2,
        kinds2,
        payloads2,
        fresh2,
        frames,
    );
    let l1 = handed_out_list(fresh1, fresh1.len() as int);
    let l2 = handed_out_list(fresh2, fresh2.len() as int);
    lemma_handed_out_list(fresh1, fresh1.len() as int);
    lemma_handed_out_list(fresh2, fresh2.len() as int);
    l1.lemma_multiset_has_no_duplicates();
    l2.lemma_multiset_has_no_duplicates();
    assert forall|entry: (int, Seq<u8>)| l1.contains(entry) <==> l2.contains(entry) by {
        assert(l1.contains(entry) <==> handed_out(fresh1).contains(entry));
        assert(l2.contains(entry) <==> handed_out(fresh2).contains(entry));
    }
    assert forall|entry: (int, Seq<u8>)| #[trigger] l1.to_multiset().count(entry) == l2.to_multiset().count(
        entry,
    ) by {
        if l1.contains(entry) {
            assert(l1.to_multiset().contains(entry));
            assert(l2.to_multiset().contains(entry));
        }
    }
    assert(l1.to_multiset() =~= l2.to_multiset());
}

/// At the end of a quiet run, the sequence numbers handed out over all calls
/// are exactly those whose frame the last window knows; they include every
/// data packet, and no parity packet's equation misses exactly one of them:
/// peeling has reached its fixpoint over the whole run.
pub proof fn lemma_quiet_run_hands_out_fixpoint(
    windows: Seq<RecoveryWindow>,
    sequences: Seq<u32>,
    kinds: Seq<PacketKind>,
    payloads: Seq<Seq<u8>>,
    fresh: Seq<Seq<(u32, Payload)>>,
)
    requires
        quiet_run(windows, sequences, kinds, payloads, fresh),
    ensures
        ({
            let n = sequences.len() as int;
            let handed = handed_sequences(fresh, n);
            &&& handed == known_set(&windows[n])
            &&& data_sequences(sequences, kinds, n).subset_of(handed)
            &&& closed_under(&windows[n], handed, parity_sequences(sequences, kinds, n))
        }),
{
    let n = sequences.len() as int;
    lemma_quiet_handed_are_known(windows, sequences, kinds, payloads, fresh, n);
    lemma_quiet_run_closed(windows, sequences, kinds, payloads, fresh);
}

} // verus!
