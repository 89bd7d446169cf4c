use vstd::prelude::*;

verus! {

/// `chunks` cuts `[0, n)` into consecutive non-empty pieces, in order.
pub open spec fn tiles(chunks: Seq<(usize, usize)>, n: nat) -> bool {
    &&& (n == 0 <==> chunks.len() == 0)
    &&& (chunks.len() > 0 ==> chunks[0].0 == 0 && chunks[chunks.len() - 1].1 == n)
    &&& forall|c: int| 0 <= c < chunks.len() ==> #[trigger] chunks[c].0 < chunks[c].1
    &&& forall|c: int| 0 <= c < chunks.len() - 1 ==> #[trigger] chunks[c].1 == chunks[c + 1].0
}

/// `chunks` tiles `[0, n)` with pieces of `size` nodes, the last one
/// holding what is left: what `chunk_bounds` returns.
pub open spec fn chunked_by(chunks: Seq<(usize, usize)>, n: nat, size: nat) -> bool {
    &&& tiles(chunks, n)
    &&& forall|c: int| 0 <= c < chunks.len() ==> #[trigger] chunks[c].1 - chunks[c].0 <= size
    &&& forall|c: int| 0 <= c < chunks.len() - 1 ==> #[trigger] chunks[c].1 - chunks[c].0 == size
}

/// Chunk `c` starts no earlier than chunk `b` ends, for `b < c`.
proof fn lemma_tiles_ordered(chunks: Seq<(usize, usize)>, n: nat, b: int, c: int)
    requires
        tiles(chunks, n),
        0 <= b < c < chunks.len(),
    ensures
        chunks[b].1 <= chunks[c].0,
    decreases c - b,
{
    assert(chunks[c - 1].1 == chunks[c].0);
    if b < c - 1 {
        lemma_tiles_ordered(chunks, n, b, c - 1);
        assert(chunks[c - 1].0 < chunks[c - 1].1);
    }
}

/// Nodes `0 .. chunks[c].1` all lie in the chunks up to `c`.
proof fn lemma_tiles_prefix(chunks: Seq<(usize, usize)>, n: nat, c: int, i: int)
    requires
        tiles(chunks, n),
        0 <= c < chunks.len(),
        0 <= i < chunks[c].1,
    ensures
        exists|b: int| 0 <= b <= c && #[trigger] chunks[b].0 <= i < chunks[b].1,
    decreases c,
{
    if i < chunks[c].0 {
        assert(c > 0);
        assert(chunks[c - 1].1 == chunks[c].0);
        lemma_tiles_prefix(chunks, n, c - 1, i);
    } else {
        assert(chunks[c].0 <= i < chunks[c].1);
    }
}

/// Every node below `n` lies in exactly one chunk of a tiling of `[0, n)`:
/// split by `chunk_bounds`, the outer rows of a pair kernel are each run
/// once, so every pair of nodes is visited once.
pub proof fn lemma_each_node_in_one_chunk(chunks: Seq<(usize, usize)>, n: nat, i: int)
    requires
        tiles(chunks, n),
        0 <= i < n,
    ensures
        exists|c: int| 0 <= c < chunks.len() && #[trigger] chunks[c].0 <= i < chunks[c].1,
        forall|b: int, c: int|
            0 <= b < chunks.len() && 0 <= c < chunks.len() && #[trigger] chunks[b].0 <= i < chunks[b].1
                && #[trigger] chunks[c].0 <= i < chunks[c].1 ==> b == c,
{
    lemma_tiles_prefix(chunks, n, chunks.len() - 1, i);
    assert forall|b: int, c: int|
        0 <= b < chunks.len() && 0 <= c < chunks.len() && #[trigger] chunks[b].0 <= i < chunks[b].1
            && #[trigger] chunks[c].0 <= i < chunks[c].1 implies b == c by {
        if b < c {
            lemma_tiles_ordered(chunks, n, b, c);
        } else if c < b {
            lemma_tiles_ordered(chunks, n, c, b);
        }
    }
}

/// Splits the node range `[0, n)` into consecutive work chunks of `size`
/// nodes each, the last one holding what is left.
///
/// The chunks are returned as half-open bounds `(start, end)`, in order.
pub fn chunk_bounds(n: usize, size: usize) -> (r: Vec<(usize, usize)>)
    requires
        size > 0,
    ensures
        chunked_by(r@, n as nat, size as nat),
        tiles(r@, n as nat),
        n == 0 <==> r.len() == 0,
        r.len() > 0 ==> r[0].0 == 0 && r[r.len() - 1].1 == n,
        forall|c: int| 0 <= c < r.len() ==> r[c].0 < r[c].1 && r[c].1 - r[c].0 <= size,
        forall|c: int| 0 <= c < r.len() - 1 ==> r[c].1 == r[c + 1].0 && r[c].1 - r[c].0 == size,
        forall|c: int| 0 <= c < r.len() ==> r[c].1 <= n,
{
    let mut r: Vec<(usize, usize)> = Vec::new();
    let mut start: usize = 0;
    while start < n
        invariant
            start <= n,
            size > 0,
            r.len() == 0 <==> start == 0,
            r.len() > 0 ==> r[0].0 == 0 && r[r.len() - 1].1 == start,
            forall|c: int| 0 <= c < r.len() ==> r[c].0 < r[c].1 && r[c].1 - r[c].0 <= size,
            forall|c: int| 0 <= c < r.len() ==> r[c].1 <= start,
            forall|c: int| 0 <= c < r.len() - 1 ==> r[c].1 == r[c + 1].0 && r[c].1 - r[c].0 == size,
            r.len() > 0 && start < n ==> r[r.len() - 1].1 - r[r.len() - 1].0 == size,
        decreases n - start,
    {
        let end = if n - start > size {
            start + size
        } else {
            n
        };
        r.push((start, end));
        start = end;
    }
    r
}

/// A vector of `len` copies of `x`.
pub fn filled<T: Copy>(len: usize, x: T) -> (r: Vec<T>)
    ensures
        r@ == Seq::new(len as nat, |_i: int| x),
{
    let mut r: Vec<T> = Vec::with_capacity(len);
    let mut i: usize = 0;
    while i < len
        invariant
            i <= len,
            r@ == Seq::new(i as nat, |_i: int| x),
        decreases len - i,
    {
        r.push(x);
        i += 1;
        assert(r@ =~= Seq::new(i as nat, |_i: int| x));
    }
    r
}

} // verus!
