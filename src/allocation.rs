use vstd::prelude::*;

verus! {

/// Byte order of the target platform.
#[derive(Clone, Copy, Debug, PartialEq, Eq, Structural)]
pub enum Endian {
    Little,
    Big,
}

/// Value of bytes read as an unsigned little-endian integer.
pub open spec fn le_value(s: Seq<u8>) -> nat
    decreases s.len(),
{
    if s.len() == 0 {
        0
    } else {
        s[0] as nat + 256 * le_value(s.drop_first())
    }
}

/// Value of bytes read as an unsigned big-endian integer.
pub open spec fn be_value(s: Seq<u8>) -> nat
    decreases s.len(),
{
    if s.len() == 0 {
        0
    } else {
        be_value(s.drop_last()) * 256 + s.last() as nat
    }
}

/// Value of bytes read as an unsigned integer in the given byte order.
pub open spec fn uint_value(endian: Endian, s: Seq<u8>) -> nat {
    match endian {
        Endian::Little => le_value(s),
        Endian::Big => be_value(s),
    }
}

pub open spec fn pow256(n: nat) -> nat
    decreases n,
{
    if n == 0 {
        1
    } else {
        256 * pow256((n - 1) as nat)
    }
}

proof fn lemma_pow256_le_u64(k: nat)
    requires
        k <= 8,
    ensures
        pow256(k) <= 0x1_0000_0000_0000_0000,
    decreases 8 - k,
{
    if k < 8 {
        lemma_pow256_le_u64(k + 1);
    } else {
        reveal_with_fuel(pow256, 9);
        assert(pow256(8) == 0x1_0000_0000_0000_0000);
    }
}

/// Reads `size` bytes of `bytes` from `start` as an unsigned integer in the
/// given byte order (the pointer offset stored in a relocated field).
pub fn read_target_uint(endian: Endian, bytes: &Vec<u8>, start: usize, size: usize) -> (r: u64)
    requires
        size <= 8,
        start + size <= bytes.len(),
    ensures
        r as nat == uint_value(endian, bytes@.subrange(start as int, start + size)),
{
    let ghost s = bytes@.subrange(start as int, start + size);
    let mut v: u64 = 0;
    match endian {
        Endian::Big => {
            let mut i: usize = 0;
            while i < size
                invariant
                    i <= size <= 8,
                    start + size <= bytes.len(),
                    s == bytes@.subrange(start as int, start + size),
                    v as nat == be_value(s.take(i as int)),
                    (v as nat) < pow256(i as nat),
                decreases size - i,
            {
                proof {
                    lemma_pow256_le_u64((i + 1) as nat);
                    let p = pow256(i as nat);
                    let b = bytes@[start + i] as nat;
                    assert((v as nat) * 256 + b < 256 * p) by (nonlinear_arith)
                        requires (v as nat) < p, b < 256;
                    assert(s.take(i + 1).drop_last() =~= s.take(i as int));
                }
                v = v * 256 + bytes[start + i] as u64;
                i = i + 1;
            }
            assert(s.take(size as int) =~= s);
        },
        Endian::Little => {
            let mut i: usize = size;
            while i > 0
                invariant
                    i <= size <= 8,
                    start + size <= bytes.len(),
                    s == bytes@.subrange(start as int, start + size),
                    v as nat == le_value(s.subrange(i as int, size as int)),
                    (v as nat) < pow256((size - i) as nat),
                decreases i,
            {
                proof {
                    lemma_pow256_le_u64((size - i + 1) as nat);
                    let p = pow256((size - i) as nat);
                    let b = bytes@[start + i - 1] as nat;
                    assert((v as nat) * 256 + b < 256 * p) by (nonlinear_arith)
                        requires (v as nat) < p, b < 256;
                    assert(s.subrange(i - 1, size as int).drop_first() =~= s.subrange(
                        i as int,
                        size as int,
                    ));
                }
                v = v * 256 + bytes[start + i - 1] as u64;
                i = i - 1;
            }
            assert(s.subrange(0, size as int) =~= s);
        },
    }
    v
}

} // verus!

verus! {

/// A pointer-sized field of an allocation that refers to another allocation.
#[derive(Clone, Copy, Debug, PartialEq, Eq, Structural)]
pub struct Relocation {
    /// Byte offset of the field inside the allocation.
    pub offset: usize,
    /// Index of the referenced allocation in the unit's allocation table.
    pub target: usize,
}

/// An immutable memory snapshot: raw bytes plus the relocation table.
#[derive(Debug)]
pub struct Allocation {
    pub bytes: Vec<u8>,
    pub relocations: Vec<Relocation>,
}

impl Allocation {
    /// Offsets strictly increase, each relocation spans `ps` bytes inside the
    /// buffer, and no two relocations overlap.
    pub open spec fn relocations_wf(&self, ps: nat) -> bool {
        &&& forall|k: int|
            0 <= k < self.relocations@.len() ==> #[trigger] self.relocations@[k].offset + ps
                <= self.bytes@.len()
        &&& forall|k: int|
            0 <= k < self.relocations@.len() - 1 ==> #[trigger] self.relocations@[k].offset + ps
                <= self.relocations@[k + 1].offset
    }

    /// Every byte is zero and nothing is relocated.
    pub open spec fn all_zero(&self) -> bool {
        &&& self.relocations@.len() == 0
        &&& forall|i: int| 0 <= i < self.bytes@.len() ==> #[trigger] self.bytes@[i] == 0
    }

    pub fn new(bytes: Vec<u8>, relocations: Vec<Relocation>) -> (r: Allocation)
        ensures
            r.bytes@ == bytes@,
            r.relocations@ == relocations@,
    {
        Allocation { bytes, relocations }
    }

    pub fn len(&self) -> (r: usize)
        ensures
            r == self.bytes@.len(),
    {
        self.bytes.len()
    }

    /// Checks the ordering and bounds invariant of the relocation table.
    pub fn check_relocations(&self, ps: usize) -> (r: bool)
        ensures
            r == self.relocations_wf(ps as nat),
    {
        let n = self.relocations.len();
        let len = self.bytes.len();
        let mut k: usize = 0;
        while k < n
            invariant
                n == self.relocations@.len(),
                len == self.bytes@.len(),
                k <= n,
                forall|j: int|
                    0 <= j < k ==> #[trigger] self.relocations@[j].offset + ps <= self.bytes@.len(),
                forall|j: int|
                    0 <= j < k && j < n - 1 ==> #[trigger] self.relocations@[j].offset + ps
                        <= self.relocations@[j + 1].offset,
            decreases n - k,
        {
            let off = self.relocations[k].offset;
            if off > len || ps > len - off {
                return false;
            }
            if k + 1 < n && off + ps > self.relocations[k + 1].offset {
                return false;
            }
            k = k + 1;
        }
        true
    }

    /// True when the allocation has no relocations and only zero bytes.
    pub fn is_all_zero(&self) -> (r: bool)
        ensures
            r == self.all_zero(),
    {
        if self.relocations.len() != 0 {
            return false;
        }
        let mut i: usize = 0;
        while i < self.bytes.len()
            invariant
                i <= self.bytes@.len(),
                forall|j: int| 0 <= j < i ==> #[trigger] self.bytes@[j] == 0,
            decreases self.bytes@.len() - i,
        {
            if self.bytes[i] != 0 {
                return false;
            }
            i = i + 1;
        }
        true
    }
}

} // verus!
