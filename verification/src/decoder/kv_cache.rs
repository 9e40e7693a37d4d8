//! Self-attention key/value cache with copy-on-write storage.

use std::sync::Arc;
use vstd::prelude::*;

verus! {

/// Self-attention KV cache for one decoder layer.
/// Pre-allocated to avoid copies during autoregressive generation.
/// Layout: [n_head, capacity, head_dim] -- head-first, fixed capacity.
///
/// The storage is shared between clones until one of them writes.
pub struct LayerKVCache<T> {
    /// Keys.
    pub k: Arc<Vec<T>>,
    /// Values.
    pub v: Arc<Vec<T>>,
    /// Number of positions that are filled.
    pub seq_len: usize,
    /// Number of attention heads.
    pub n_head: usize,
    /// Elements per head and position.
    pub head_dim: usize,
    /// Number of positions per head.
    pub capacity: usize,
}

/// Row of head `h` at position `s` in head-first storage of `n` positions per head.
pub open spec fn head_row<T>(data: Seq<T>, head_dim: int, h: int, n: int, s: int) -> Seq<T> {
    crate::rows::row(data, head_dim, crate::rows::place(h, n, s))
}

/// Row of head `h` at position `s` in position-first storage of `n` heads per position.
pub open spec fn state_row<T>(data: Seq<T>, head_dim: int, s: int, n: int, h: int) -> Seq<T> {
    crate::rows::row(data, head_dim, crate::rows::place(s, n, h))
}

/// Arc::make_mut gives access to the shared value. A value that other handles share is cloned
/// first, and the clone of a vector of `Copy` elements holds the same elements; what is written
/// through the reference is what this handle holds afterwards.
#[verifier::external_body]
fn make_unique<T: Copy>(a: &mut Arc<Vec<T>>) -> (r: &mut Vec<T>)
    ensures
        r@ == old(a)@,
        final(a)@ == final(r)@,
{
    Arc::make_mut(a)
}

/// Arc::clone gives a second handle to the same value.
#[verifier::external_body]
fn share<T>(a: &Arc<Vec<T>>) -> (r: Arc<Vec<T>>)
    ensures
        r == *a,
{
    Arc::clone(a)
}

impl<T> LayerKVCache<T> {
    /// The storage has its size, and no more positions are filled than there are.
    pub open spec fn wf(&self) -> bool {
        &&& self.n_head * self.capacity <= usize::MAX
        &&& self.k@.len() == (self.n_head * self.capacity) * self.head_dim
        &&& self.v@.len() == (self.n_head * self.capacity) * self.head_dim
        &&& self.seq_len <= self.capacity
    }

    /// The key of head `h` at position `s`.
    pub open spec fn key(&self, h: int, s: int) -> Seq<T> {
        head_row(self.k@, self.head_dim as int, h, self.capacity as int, s)
    }

    /// The value of head `h` at position `s`.
    pub open spec fn value(&self, h: int, s: int) -> Seq<T> {
        head_row(self.v@, self.head_dim as int, h, self.capacity as int, s)
    }

    /// Two caches have the same shape.
    pub open spec fn same_shape(&self, other: &LayerKVCache<T>) -> bool {
        &&& self.n_head == other.n_head
        &&& self.head_dim == other.head_dim
        &&& self.capacity == other.capacity
    }
}

/// `new` is the cache `old` with `n` more positions: what was filled before is unchanged, and the
/// new positions hold the position-first keys and values.
pub open spec fn is_appended<T>(
    old_kv: LayerKVCache<T>,
    keys: Seq<T>,
    values: Seq<T>,
    n: int,
    new_kv: LayerKVCache<T>,
) -> bool {
    &&& new_kv.wf()
    &&& new_kv.same_shape(&old_kv)
    &&& new_kv.seq_len == old_kv.seq_len + n
    &&& forall|h: int, s: int|
        0 <= h < old_kv.n_head && 0 <= s < old_kv.seq_len ==> #[trigger] new_kv.key(h, s)
            == old_kv.key(h, s)
    &&& forall|h: int, s: int|
        0 <= h < old_kv.n_head && 0 <= s < old_kv.seq_len ==> #[trigger] new_kv.value(h, s)
            == old_kv.value(h, s)
    &&& forall|h: int, s: int|
        0 <= h < old_kv.n_head && old_kv.seq_len <= s < new_kv.seq_len ==> #[trigger] new_kv.key(
            h,
            s,
        ) == state_row(keys, old_kv.head_dim as int, s - old_kv.seq_len, old_kv.n_head as int, h)
    &&& forall|h: int, s: int|
        0 <= h < old_kv.n_head && old_kv.seq_len <= s < new_kv.seq_len ==> #[trigger] new_kv.value(
            h,
            s,
        ) == state_row(values, old_kv.head_dim as int, s - old_kv.seq_len, old_kv.n_head as int, h)
}

impl<T> Clone for LayerKVCache<T> {
    /// A clone shares the storage.
    fn clone(&self) -> (r: Self)
        ensures
            r == *self,
    {
        LayerKVCache {
            k: share(&self.k),
            v: share(&self.v),
            seq_len: self.seq_len,
            n_head: self.n_head,
            head_dim: self.head_dim,
            capacity: self.capacity,
        }
    }
}

impl<T: Copy> LayerKVCache<T> {
    /// An empty cache; its storage is filled with `zero`.
    pub fn new(n_head: usize, head_dim: usize, capacity: usize, zero: T) -> (r: Self)
        requires
            n_head * capacity <= usize::MAX,
            (n_head * capacity) * head_dim <= usize::MAX,
        ensures
            r.wf(),
            r.seq_len == 0,
            r.n_head == n_head,
            r.head_dim == head_dim,
            r.capacity == capacity,
            r.k@ == Seq::new(((n_head * capacity) * head_dim) as nat, |i: int| zero),
            r.v@ == Seq::new(((n_head * capacity) * head_dim) as nat, |i: int| zero),
    {
        let n: usize = n_head * capacity * head_dim;
        let k: Vec<T> = crate::rows::filled(n, zero);
        let v: Vec<T> = crate::rows::filled(n, zero);
        LayerKVCache { k: Arc::new(k), v: Arc::new(v), seq_len: 0, n_head, head_dim, capacity }
    }

    /// Append K,V for `new_seq_len` new tokens.
    /// new_k/v: [new_seq_len, n_state] row-major  (n_state = n_head * head_dim)
    pub fn append(&mut self, new_k: &[T], new_v: &[T], new_seq_len: usize)
        requires
            old(self).wf(),
            old(self).seq_len + new_seq_len <= old(self).capacity,
            (new_seq_len * old(self).n_head) * old(self).head_dim <= new_k@.len(),
            (new_seq_len * old(self).n_head) * old(self).head_dim <= new_v@.len(),
        ensures
            is_appended(*old(self), new_k@, new_v@, new_seq_len as int, *final(self)),
    {
        let n_head: usize = self.n_head;
        let head_dim: usize = self.head_dim;
        let capacity: usize = self.capacity;
        let from: usize = self.seq_len;
        put_rows(make_unique(&mut self.k), n_head, head_dim, capacity, from, new_k, new_seq_len);
        put_rows(make_unique(&mut self.v), n_head, head_dim, capacity, from, new_v, new_seq_len);
        self.seq_len = from + new_seq_len;
    }

    /// K slice for head h, only the populated portion: [seq_len, head_dim]
    pub fn k_head(&self, h: usize) -> (r: &[T])
        requires
            self.wf(),
            h < self.n_head,
        ensures
            r@.len() == self.seq_len * self.head_dim,
            forall|s: int|
                0 <= s < self.seq_len ==> #[trigger] crate::rows::row(r@, self.head_dim as int, s)
                    == self.key(h as int, s),
    {
        head_part(self.k.as_slice(), self.n_head, self.head_dim, self.capacity, self.seq_len, h)
    }

    /// V slice for head h, only the populated portion: [seq_len, head_dim]
    pub fn v_head(&self, h: usize) -> (r: &[T])
        requires
            self.wf(),
            h < self.n_head,
        ensures
            r@.len() == self.seq_len * self.head_dim,
            forall|s: int|
                0 <= s < self.seq_len ==> #[trigger] crate::rows::row(r@, self.head_dim as int, s)
                    == self.value(h as int, s),
    {
        head_part(self.v.as_slice(), self.n_head, self.head_dim, self.capacity, self.seq_len, h)
    }
}

/// Writes `count` positions of all heads from position `from` on; `source` is position-first.
fn put_rows<T: Copy>(
    data: &mut Vec<T>,
    n_head: usize,
    head_dim: usize,
    capacity: usize,
    from: usize,
    source: &[T],
    count: usize,
)
    requires
        n_head * capacity <= usize::MAX,
        old(data)@.len() == (n_head * capacity) * head_dim,
        from + count <= capacity,
        (count * n_head) * head_dim <= source@.len(),
    ensures
        final(data)@.len() == old(data)@.len(),
        forall|h: int, s: int|
            0 <= h < n_head && 0 <= s < from ==> #[trigger] head_row(
                final(data)@,
                head_dim as int,
                h,
                capacity as int,
                s,
            ) == head_row(old(data)@, head_dim as int, h, capacity as int, s),
        forall|h: int, s: int|
            0 <= h < n_head && from <= s < from + count ==> #[trigger] head_row(
                final(data)@,
                head_dim as int,
                h,
                capacity as int,
                s,
            ) == state_row(source@, head_dim as int, s - from, n_head as int, h),
{
    let len: usize = data.len();
    let source_len: usize = source.len();
    let ghost width = head_dim as int;
    let ghost cap = capacity as int;
    let mut h: usize = 0;
    while h < n_head
        invariant
            h <= n_head,
            width == head_dim,
            cap == capacity,
            len == data@.len(),
            source_len == source@.len(),
            data@.len() == old(data)@.len(),
            n_head * capacity <= usize::MAX,
            data@.len() == (n_head * capacity) * head_dim,
            from + count <= capacity,
            (count * n_head) * head_dim <= source@.len(),
            forall|g: int, s: int|
                0 <= g < n_head && 0 <= s < from ==> #[trigger] head_row(data@, width, g, cap, s)
                    == head_row(old(data)@, width, g, cap, s),
            forall|g: int, s: int|
                0 <= g < h && from <= s < from + count ==> #[trigger] head_row(
                    data@,
                    width,
                    g,
                    cap,
                    s,
                ) == state_row(source@, width, s - from, n_head as int, g),
        decreases n_head - h,
    {
        let mut t: usize = 0;
        while t < count
            invariant
                h < n_head,
                t <= count,
                width == head_dim,
                cap == capacity,
                len == data@.len(),
                source_len == source@.len(),
                data@.len() == old(data)@.len(),
                n_head * capacity <= usize::MAX,
                data@.len() == (n_head * capacity) * head_dim,
                from + count <= capacity,
                (count * n_head) * head_dim <= source@.len(),
                forall|g: int, s: int|
                    0 <= g < n_head && 0 <= s < from ==> #[trigger] head_row(
                        data@,
                        width,
                        g,
                        cap,
                        s,
                    ) == head_row(old(data)@, width, g, cap, s),
                forall|g: int, s: int|
                    0 <= g < n_head && from <= s < from + count && (g < h || (g == h && s < from
                        + t)) ==> #[trigger] head_row(data@, width, g, cap, s) == state_row(
                        source@,
                        width,
                        s - from,
                        n_head as int,
                        g,
                    ),
            decreases count - t,
        {
            proof {
                crate::rows::lemma_place_fits(h as int, n_head as int, cap, from + t);
                crate::rows::lemma_place_fits(t as int, count as int, n_head as int, h as int);
                let at = crate::rows::place(h as int, cap, from + t);
                let src = crate::rows::place(t as int, n_head as int, h as int);
                crate::rows::lemma_row_fits(at, n_head * capacity, width);
                crate::rows::lemma_row_fits(src, count * n_head, width);
                assert(count * n_head <= n_head * capacity) by (nonlinear_arith)
                    requires
                        0 <= count <= capacity,
                        0 <= n_head,
                ;
            }
            let at: usize = h * capacity + (from + t);
            let src: usize = t * n_head + h;
            let ghost before = data@;
            crate::rows::write_row(
                data,
                head_dim,
                at,
                crate::rows::get_row(source, head_dim, src, Ghost(count * n_head)),
            );
            proof {
                assert forall|g: int, s: int|
                    0 <= g < n_head && 0 <= s < capacity && (g != h || s != from
                        + t) implies #[trigger] head_row(data@, width, g, cap, s) == head_row(
                    before,
                    width,
                    g,
                    cap,
                    s,
                ) by {
                    crate::rows::lemma_places_differ(g, s, h as int, from + t, cap);
                    crate::rows::lemma_place_fits(g, n_head as int, cap, s);
                    crate::rows::lemma_row_fits(
                        crate::rows::place(g, cap, s),
                        n_head * capacity,
                        width,
                    );
                }
                assert(head_row(data@, width, h as int, cap, from + t) == state_row(
                    source@,
                    width,
                    t as int,
                    n_head as int,
                    h as int,
                ));
            }
            t = t + 1;
        }
        h = h + 1;
    }
}

/// The filled positions of a head.
pub(crate) fn head_part<T>(
    data: &[T],
    n_head: usize,
    head_dim: usize,
    capacity: usize,
    seq_len: usize,
    h: usize,
) -> (r: &[T])
    requires
        n_head * capacity <= usize::MAX,
        data@.len() == (n_head * capacity) * head_dim,
        seq_len <= capacity,
        h < n_head,
    ensures
        r@.len() == seq_len * head_dim,
        forall|s: int|
            0 <= s < seq_len ==> #[trigger] crate::rows::row(r@, head_dim as int, s) == head_row(
                data@,
                head_dim as int,
                h as int,
                capacity as int,
                s,
            ),
{
    let len: usize = data.len();
    proof {
        assert(0 <= h * capacity && h * capacity + capacity <= n_head * capacity)
            by (nonlinear_arith)
            requires
                0 <= h < n_head,
                0 <= capacity,
        ;
        assert(0 <= (h * capacity) * head_dim && 0 <= seq_len * head_dim && (h * capacity)
            * head_dim + seq_len * head_dim <= (n_head * capacity) * head_dim) by (nonlinear_arith)
            requires
                0 <= h * capacity,
                h * capacity + seq_len <= n_head * capacity,
                0 <= seq_len,
                0 <= head_dim,
        ;
    }
    let off: usize = h * capacity * head_dim;
    let end: usize = off + seq_len * head_dim;
    proof {
        let part = data@.subrange(off as int, end as int);
        let width = head_dim as int;
        assert forall|s: int| 0 <= s < seq_len implies #[trigger] crate::rows::row(part, width, s)
            == head_row(data@, width, h as int, capacity as int, s) by {
            crate::rows::lemma_row_fits(s, seq_len as int, width);
            assert((h * capacity + s) * width == (h * capacity) * width + s * width)
                by (nonlinear_arith);
            assert(crate::rows::row(part, width, s) =~= head_row(
                data@,
                width,
                h as int,
                capacity as int,
                s,
            ));
        }
    }
    &data[off..end]
}

/// Rows of data that was put together from two parts, the first of `n` whole positions.
proof fn lemma_state_row_of_sum<T>(a: Seq<T>, b: Seq<T>, width: int, n: int, heads: int, s: int, h: int)
    requires
        0 <= width,
        0 <= n,
        0 <= h < heads,
        0 <= s,
        a.len() == (n * heads) * width,
        s >= n ==> b.len() >= ((s - n + 1) * heads) * width,
    ensures
        s < n ==> state_row(a + b, width, s, heads, h) == state_row(a, width, s, heads, h),
        s >= n ==> state_row(a + b, width, s, heads, h) == state_row(b, width, s - n, heads, h),
{
    if s < n {
        crate::rows::lemma_place_fits(s, n, heads, h);
        crate::rows::lemma_row_fits(crate::rows::place(s, heads, h), n * heads, width);
        assert(state_row(a + b, width, s, heads, h) =~= state_row(a, width, s, heads, h));
    } else {
        crate::rows::lemma_place_fits(s - n, s - n + 1, heads, h);
        let near = crate::rows::place(s - n, heads, h);
        let far = crate::rows::place(s, heads, h);
        crate::rows::lemma_row_fits(near, (s - n + 1) * heads, width);
        assert(far * width == (n * heads) * width + near * width) by (nonlinear_arith)
            requires
                near == (s - n) * heads + h,
                far == s * heads + h,
        ;
        assert(state_row(a + b, width, s, heads, h) =~= state_row(b, width, s - n, heads, h));
    }
}

/// Appending positions in two steps fills a cache like appending them in one.
pub proof fn law_append_splits<T>(
    start: LayerKVCache<T>,
    keys1: Seq<T>,
    values1: Seq<T>,
    n1: int,
    middle: LayerKVCache<T>,
    keys2: Seq<T>,
    values2: Seq<T>,
    n2: int,
    stepwise: LayerKVCache<T>,
    at_once: LayerKVCache<T>,
    h: int,
    s: int,
)
    requires
        0 <= n1,
        0 <= n2,
        keys1.len() == (n1 * start.n_head) * start.head_dim,
        values1.len() == (n1 * start.n_head) * start.head_dim,
        keys2.len() == (n2 * start.n_head) * start.head_dim,
        values2.len() == (n2 * start.n_head) * start.head_dim,
        is_appended(start, keys1, values1, n1, middle),
        is_appended(middle, keys2, values2, n2, stepwise),
        is_appended(start, keys1 + keys2, values1 + values2, n1 + n2, at_once),
        0 <= h < start.n_head,
        0 <= s < stepwise.seq_len,
    ensures
        at_once.seq_len == stepwise.seq_len,
        at_once.key(h, s) == stepwise.key(h, s),
        at_once.value(h, s) == stepwise.value(h, s),
{
    let heads = start.n_head as int;
    let width = start.head_dim as int;
    let from = start.seq_len as int;
    if s >= from {
        if s - from >= n1 {
            assert(((s - from - n1 + 1) * heads) * width <= (n2 * heads) * width)
                by (nonlinear_arith)
                requires
                    0 <= s - from - n1 + 1 <= n2,
                    0 <= heads,
                    0 <= width,
            ;
        }
        lemma_state_row_of_sum(keys1, keys2, width, n1, heads, s - from, h);
        lemma_state_row_of_sum(values1, values2, width, n1, heads, s - from, h);
    }
    if s < middle.seq_len {
        assert(stepwise.key(h, s) == middle.key(h, s));
        assert(stepwise.value(h, s) == middle.value(h, s));
        if s < from {
            assert(middle.key(h, s) == start.key(h, s));
            assert(middle.value(h, s) == start.value(h, s));
        }
    }
}

/// Appending keeps what a cache held and fills the positions behind it: element `d` of head `h` at
/// new position `j` is the element that position `j` of the new keys (or values) has for the head.
pub proof fn law_append_fills_in<T>(
    old_kv: LayerKVCache<T>,
    keys: Seq<T>,
    values: Seq<T>,
    n: int,
    new_kv: LayerKVCache<T>,
    h: int,
)
    requires
        old_kv.wf(),
        is_appended(old_kv, keys, values, n, new_kv),
        0 <= n,
        keys.len() == (n * old_kv.n_head) * old_kv.head_dim,
        values.len() == (n * old_kv.n_head) * old_kv.head_dim,
        0 <= h < old_kv.n_head,
    ensures
        new_kv.seq_len == old_kv.seq_len + n,
        forall|j: int, d: int|
            0 <= j < old_kv.seq_len && 0 <= d < old_kv.head_dim ==> #[trigger] new_kv.k@[(h
                * old_kv.capacity + j) * old_kv.head_dim + d] == old_kv.k@[(h * old_kv.capacity + j)
                * old_kv.head_dim + d],
        forall|j: int, d: int|
            0 <= j < old_kv.seq_len && 0 <= d < old_kv.head_dim ==> #[trigger] new_kv.v@[(h
                * old_kv.capacity + j) * old_kv.head_dim + d] == old_kv.v@[(h * old_kv.capacity + j)
                * old_kv.head_dim + d],
        forall|j: int, d: int|
            0 <= j < n && 0 <= d < old_kv.head_dim ==> new_kv.k@[(h * old_kv.capacity + (
            old_kv.seq_len + j)) * old_kv.head_dim + d] == #[trigger] keys[(j * old_kv.n_head + h)
                * old_kv.head_dim + d],
        forall|j: int, d: int|
            0 <= j < n && 0 <= d < old_kv.head_dim ==> new_kv.v@[(h * old_kv.capacity + (
            old_kv.seq_len + j)) * old_kv.head_dim + d] == #[trigger] values[(j * old_kv.n_head + h)
                * old_kv.head_dim + d],
{
    let heads = old_kv.n_head as int;
    let width = old_kv.head_dim as int;
    let cap = old_kv.capacity as int;
    let past = old_kv.seq_len as int;
    assert forall|j: int, d: int| 0 <= j < past && 0 <= d < width implies #[trigger] new_kv.k@[(h
        * cap + j) * width + d] == old_kv.k@[(h * cap + j) * width + d] by {
        lemma_storage_element(new_kv.k@, heads, cap, width, h, j, d);
        lemma_storage_element(old_kv.k@, heads, cap, width, h, j, d);
        assert(new_kv.key(h, j) == old_kv.key(h, j));
    }
    assert forall|j: int, d: int| 0 <= j < past && 0 <= d < width implies #[trigger] new_kv.v@[(h
        * cap + j) * width + d] == old_kv.v@[(h * cap + j) * width + d] by {
        lemma_storage_element(new_kv.v@, heads, cap, width, h, j, d);
        lemma_storage_element(old_kv.v@, heads, cap, width, h, j, d);
        assert(new_kv.value(h, j) == old_kv.value(h, j));
    }
    assert forall|j: int, d: int| 0 <= j < n && 0 <= d < width implies new_kv.k@[(h * cap + (past
        + j)) * width + d] == #[trigger] keys[(j * heads + h) * width + d] by {
        lemma_storage_element(new_kv.k@, heads, cap, width, h, past + j, d);
        lemma_storage_element(keys, n, heads, width, j, h, d);
        assert(new_kv.key(h, past + j) == state_row(keys, width, j, heads, h));
    }
    assert forall|j: int, d: int| 0 <= j < n && 0 <= d < width implies new_kv.v@[(h * cap + (past
        + j)) * width + d] == #[trigger] values[(j * heads + h) * width + d] by {
        lemma_storage_element(new_kv.v@, heads, cap, width, h, past + j, d);
        lemma_storage_element(values, n, heads, width, j, h, d);
        assert(new_kv.value(h, past + j) == state_row(values, width, j, heads, h));
    }
}

/// An element of row `j` in group `i` of storage.
proof fn lemma_storage_element<T>(
    data: Seq<T>,
    groups: int,
    n: int,
    width: int,
    i: int,
    j: int,
    d: int,
)
    requires
        0 <= i < groups,
        0 <= j < n,
        0 <= d < width,
        data.len() == (groups * n) * width,
    ensures
        head_row(data, width, i, n, j).len() == width,
        head_row(data, width, i, n, j)[d] == data[(i * n + j) * width + d],
{
    crate::rows::lemma_place_fits(i, groups, n, j);
    crate::rows::lemma_row_fits(crate::rows::place(i, n, j), groups * n, width);
}

} // verus!
