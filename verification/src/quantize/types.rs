//! Core quantization types, block-size constants, and the `QuantizedTensor` struct.

use vstd::prelude::*;

verus! {

/// Values per Q4_0 block.
pub const Q4_0_BLOCK_SIZE: usize = 32;

/// Bytes per Q4_0 block: 2 (half-precision scale) + 16 (nibbles).
pub const Q4_0_BLOCK_BYTES: usize = 18;

/// Values per Q5_0 block.
pub const Q5_0_BLOCK_SIZE: usize = 32;

/// Bytes per Q5_0 block: 2 (half-precision scale) + 4 (fifth bits) + 16 (nibbles).
pub const Q5_0_BLOCK_BYTES: usize = 22;

/// Values per Q8_0 block.
pub const Q8_0_BLOCK_SIZE: usize = 32;

/// Bytes per Q8_0 block: 2 (half-precision scale) + 32 (signed bytes).
pub const Q8_0_BLOCK_BYTES: usize = 34;

/// Type of quantization.
#[derive(Debug, Clone, Copy, PartialEq, Eq, Structural)]
pub enum QuantType {
    /// 4-bit quantized, 32 values per block.
    Q4_0,
    /// 5-bit quantized, 32 values per block.
    Q5_0,
    /// 8-bit quantized, 32 values per block.
    Q8_0,
}

impl QuantType {
    /// Values per block.
    pub open spec fn values_per_block(self) -> nat {
        32
    }

    /// Bytes per block.
    pub open spec fn bytes_per_block(self) -> nat {
        match self {
            QuantType::Q4_0 => 18,
            QuantType::Q5_0 => 22,
            QuantType::Q8_0 => 34,
        }
    }
}

/// The product of the numbers in `s`, which is 1 for none.
pub open spec fn product(s: Seq<usize>) -> nat
    decreases s.len(),
{
    if s.len() == 0 {
        1
    } else {
        product(s.drop_last()) * (s.last() as nat)
    }
}

/// Multiplying `s` out from the left never exceeds a machine word.
pub open spec fn product_fits(s: Seq<usize>) -> bool {
    forall|k: int| 0 <= k <= s.len() ==> #[trigger] product(s.take(k)) <= usize::MAX
}

/// A tensor kept in its block-quantized form.
#[derive(Debug, Clone)]
pub struct QuantizedTensor {
    /// Raw quantized bytes (block-structured).
    pub raw: Vec<u8>,
    /// Logical shape (the full unquantized shape).
    pub shape: Vec<usize>,
    /// Quantization type.
    pub qtype: QuantType,
}

impl QuantizedTensor {
    /// Number of elements in one physical row: the first dimension of a matrix, all elements
    /// of anything else.
    pub open spec fn row_len(&self) -> nat {
        if self.shape@.len() >= 2 {
            self.shape@[0] as nat
        } else {
            product(self.shape@)
        }
    }

    /// Number of raw bytes in one physical row.
    pub open spec fn row_byte_len(&self) -> nat {
        self.row_len() / self.qtype.values_per_block() * self.qtype.bytes_per_block()
    }

    /// Where the bytes of a row begin.
    pub open spec fn row_start(&self, row: int) -> int {
        row * (self.row_byte_len() as int)
    }

    /// Number of logical elements in the tensor.
    pub fn numel(&self) -> (n: usize)
        requires
            product_fits(self.shape@),
        ensures
            n == product(self.shape@),
    {
        let mut n: usize = 1;
        let mut i: usize = 0;
        while i < self.shape.len()
            invariant
                i <= self.shape@.len(),
                product_fits(self.shape@),
                n == product(self.shape@.take(i as int)),
            decreases self.shape@.len() - i,
        {
            assert(self.shape@.take(i + 1).drop_last() =~= self.shape@.take(i as int));
            assert(product(self.shape@.take(i + 1)) <= usize::MAX);
            n = n * self.shape[i];
            i = i + 1;
        }
        assert(self.shape@.take(i as int) =~= self.shape@);
        n
    }

    /// Block size for this quantization type.
    pub fn block_size(&self) -> (n: usize)
        ensures
            n == self.qtype.values_per_block(),
    {
        match self.qtype {
            QuantType::Q4_0 => Q4_0_BLOCK_SIZE,
            QuantType::Q5_0 => Q5_0_BLOCK_SIZE,
            QuantType::Q8_0 => Q8_0_BLOCK_SIZE,
        }
    }

    /// Bytes per block for this quantization type.
    pub fn block_bytes(&self) -> (n: usize)
        ensures
            n == self.qtype.bytes_per_block(),
    {
        match self.qtype {
            QuantType::Q4_0 => Q4_0_BLOCK_BYTES,
            QuantType::Q5_0 => Q5_0_BLOCK_BYTES,
            QuantType::Q8_0 => Q8_0_BLOCK_BYTES,
        }
    }

    /// Number of elements per physical row in the quantized data.
    ///
    /// For a 2D weight with shape `[in_f, out_f]`, the physical memory layout is
    /// `out_f` rows of `in_f` elements each, so the row length is `shape[0]`.
    pub fn row_elements(&self) -> (n: usize)
        requires
            self.shape@.len() < 2 ==> product_fits(self.shape@),
        ensures
            n == self.row_len(),
    {
        if self.shape.len() >= 2 {
            self.shape[0]
        } else {
            self.numel()
        }
    }

    /// The raw byte offset for a given row index.
    pub fn row_byte_offset(&self, row: usize) -> (offset: usize)
        requires
            self.shape@.len() < 2 ==> product_fits(self.shape@),
            self.row_start(row as int) <= usize::MAX,
        ensures
            offset == self.row_start(row as int),
    {
        let elems: usize = self.row_elements();
        let blocks_per_row: usize = elems / self.block_size();
        let bytes: usize = self.block_bytes();
        proof {
            lemma_offset(row as int, blocks_per_row as int, bytes as int);
        }
        row * blocks_per_row * bytes
    }

    /// The raw bytes of a single row.
    pub fn row_bytes(&self, row: usize) -> (bytes: &[u8])
        requires
            self.shape@.len() < 2 ==> product_fits(self.shape@),
            self.row_start(row as int) + self.row_byte_len() <= self.raw@.len(),
        ensures
            bytes@ == self.raw@.subrange(
                self.row_start(row as int),
                self.row_start(row as int) + self.row_byte_len(),
            ),
    {
        let elems: usize = self.row_elements();
        let blocks_per_row: usize = elems / self.block_size();
        let block_bytes: usize = self.block_bytes();
        proof {
            lemma_offset(row as int, blocks_per_row as int, block_bytes as int);
            assert(self.raw.len() == self.raw@.len());
        }
        let row_byte_len: usize = blocks_per_row * block_bytes;
        let offset: usize = self.row_byte_offset(row);
        &self.raw[offset..offset + row_byte_len]
    }
}

/// The product of three factors, and that it bounds the products it is made of.
proof fn lemma_offset(row: int, blocks: int, bytes: int)
    requires
        row >= 0,
        blocks >= 0,
        bytes >= 1,
    ensures
        row * blocks * bytes == row * (blocks * bytes),
        0 <= row * blocks <= row * (blocks * bytes),
        0 <= blocks * bytes,
{
    assert(row * blocks * bytes == row * (blocks * bytes)) by (nonlinear_arith);
    assert(0 <= row * blocks <= row * blocks * bytes) by (nonlinear_arith)
        requires
            row >= 0,
            blocks >= 0,
            bytes >= 1,
    ;
    assert(0 <= blocks * bytes) by (nonlinear_arith)
        requires
            blocks >= 0,
            bytes >= 1,
    ;
}

/// The rows of a tensor lie one behind the other without gap or overlap: each begins where the
/// one before it ends, and the first begins at the first byte.
pub proof fn law_rows_are_adjacent(t: QuantizedTensor, row: int)
    ensures
        t.row_start(0) == 0,
        t.row_start(row + 1) == t.row_start(row) + t.row_byte_len(),
{
    let n = t.row_byte_len() as int;
    assert((row + 1) * n == row * n + n) by (nonlinear_arith);
}

/// The product of joined lists of numbers is the product of both.
pub proof fn law_product_splits(s: Seq<usize>, t: Seq<usize>)
    ensures
        product(s + t) == product(s) * product(t),
        forall|x: usize| #[trigger] product(seq![x]) == x,
        product(Seq::<usize>::empty()) == 1,
    decreases t.len(),
{
    assert forall|x: usize| #[trigger] product(seq![x]) == x by {
        let one = seq![x];
        assert(one.drop_last() =~= Seq::<usize>::empty());
        assert(product(one.drop_last()) == 1);
        assert(product(one) == product(one.drop_last()) * (one.last() as nat));
        assert(1 * (x as nat) == x) by (nonlinear_arith);
    }
    if t.len() > 0 {
        law_product_splits(s, t.drop_last());
        assert((s + t).drop_last() =~= s + t.drop_last());
        let a = product(s);
        let b = product(t.drop_last());
        let c = t.last() as nat;
        assert((a * b) * c == a * (b * c)) by (nonlinear_arith);
    } else {
        assert(s + t =~= s);
        let a = product(s);
        assert(a * 1 == a) by (nonlinear_arith);
    }
}

/// The rows of a matrix whose first dimension is a multiple of the block size hold all its elements:
/// behind as many rows as the second dimension says, the bytes of all blocks have passed, and each
/// block has 32 elements in 18, 22 or 34 bytes.
pub proof fn law_rows_hold_all_blocks(t: QuantizedTensor)
    requires
        t.shape@.len() == 2,
        t.shape@[0] as int % 32 == 0,
    ensures
        t.row_start(t.shape@[1] as int) * 32 == product(t.shape@) * (match t.qtype {
            QuantType::Q4_0 => 18int,
            QuantType::Q5_0 => 22int,
            QuantType::Q8_0 => 34int,
        }),
        t.row_len() == t.shape@[0],
{
    let a = t.shape@[0] as int;
    let b = t.shape@[1] as int;
    law_product_splits(seq![t.shape@[0]], seq![t.shape@[1]]);
    assert(t.shape@ =~= seq![t.shape@[0]] + seq![t.shape@[1]]);
    assert(product(t.shape@) == a * b);
    let bytes = t.qtype.bytes_per_block() as int;
    let blocks = a / 32;
    assert(a == 32 * blocks);
    assert((b * (blocks * bytes)) * 32 == ((32 * blocks) * b) * bytes) by (nonlinear_arith);
}

} // verus!
