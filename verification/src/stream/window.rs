//! Totals over the chunks of a window.
use vstd::prelude::*;

use crate::stream::chunk::ChunkView;
use crate::stream::sum;

verus! {

/// The number of bytes that have arrived and have not been handed out.
pub open spec fn buffered_in<F, S>(window: Seq<ChunkView<F, S>>) -> nat {
    sum::sum(window.map_values(|c: ChunkView<F, S>| c.buffered()))
}

/// The number of chunks that hold a connection.
pub open spec fn in_flight_in<F, S>(window: Seq<ChunkView<F, S>>) -> nat {
    sum::sum(window.map_values(|c: ChunkView<F, S>| c.in_flight()))
}

/// Replacing one chunk changes the totals by the difference.
pub proof fn lemma_update<F, S>(window: Seq<ChunkView<F, S>>, index: int, chunk: ChunkView<F, S>)
    requires
        0 <= index < window.len(),
    ensures
        buffered_in(window.update(index, chunk)) + window[index].buffered() == buffered_in(window)
            + chunk.buffered(),
        in_flight_in(window.update(index, chunk)) + window[index].in_flight() == in_flight_in(
            window,
        ) + chunk.in_flight(),
        window[index].buffered() <= buffered_in(window),
        window[index].in_flight() <= in_flight_in(window),
{
    let b = window.map_values(|c: ChunkView<F, S>| c.buffered());
    let n = window.map_values(|c: ChunkView<F, S>| c.in_flight());
    sum::lemma_sum_update(b, index, chunk.buffered());
    sum::lemma_sum_update(n, index, chunk.in_flight());
    sum::lemma_sum_bounds(b, index);
    sum::lemma_sum_bounds(n, index);
    assert(window.update(index, chunk).map_values(|c: ChunkView<F, S>| c.buffered()) =~= b.update(
        index,
        chunk.buffered(),
    ));
    assert(window.update(index, chunk).map_values(|c: ChunkView<F, S>| c.in_flight()) =~= n.update(
        index,
        chunk.in_flight(),
    ));
}

/// Without the first chunk, the totals are less by what it contributes.
pub proof fn lemma_drop_first<F, S>(window: Seq<ChunkView<F, S>>)
    requires
        window.len() > 0,
    ensures
        buffered_in(window) == window[0].buffered() + buffered_in(window.drop_first()),
        in_flight_in(window) == window[0].in_flight() + in_flight_in(window.drop_first()),
{
    let b = window.map_values(|c: ChunkView<F, S>| c.buffered());
    let n = window.map_values(|c: ChunkView<F, S>| c.in_flight());
    sum::lemma_sum_drop_first(b);
    sum::lemma_sum_drop_first(n);
    assert(window.drop_first().map_values(|c: ChunkView<F, S>| c.buffered()) =~= b.drop_first());
    assert(window.drop_first().map_values(|c: ChunkView<F, S>| c.in_flight()) =~= n.drop_first());
}

/// Chunks that are being connected to have delivered nothing, and each holds a connection.
pub proof fn lemma_extend_connecting<F, S>(
    window: Seq<ChunkView<F, S>>,
    extended: Seq<ChunkView<F, S>>,
)
    requires
        window.len() <= extended.len(),
        extended.take(window.len() as int) == window,
        forall|i: int| window.len() <= i < extended.len() ==> #[trigger] extended[i] is Connecting,
    ensures
        buffered_in(extended) == buffered_in(window),
        in_flight_in(extended) == in_flight_in(window) + extended.len() - window.len(),
    decreases extended.len(),
{
    if extended.len() == window.len() {
        assert(extended =~= window);
    } else {
        let shorter = extended.drop_last();
        assert(shorter.take(window.len() as int) =~= window);
        lemma_extend_connecting(window, shorter);
        let last = extended.last();
        assert(last is Connecting);
        let b = extended.map_values(|c: ChunkView<F, S>| c.buffered());
        let n = extended.map_values(|c: ChunkView<F, S>| c.in_flight());
        assert(shorter.map_values(|c: ChunkView<F, S>| c.buffered()) =~= b.drop_last());
        assert(shorter.map_values(|c: ChunkView<F, S>| c.in_flight()) =~= n.drop_last());
    }
}

} // verus!
