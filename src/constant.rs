use vstd::prelude::*;

use crate::allocation::{uint_value, Allocation, Endian};

verus! {

/// Pointer width and byte order of the target.
#[derive(Clone, Copy, Debug, PartialEq, Eq, Structural)]
pub struct TargetInfo {
    pub pointer_size: usize,
    pub endian: Endian,
}

impl TargetInfo {
    pub open spec fn wf(&self) -> bool {
        1 <= self.pointer_size <= 8
    }
}

/// One piece of a backend constant.
#[derive(Debug)]
pub enum Fragment {
    /// A literal run of bytes.
    Bytes(Vec<u8>),
    /// The address of a global symbol plus a byte offset.
    Pointer { symbol: usize, offset: u64 },
}

/// Mathematical model of a fragment.
pub enum FragmentModel {
    Bytes(Seq<u8>),
    Pointer(nat, nat),
}

impl View for Fragment {
    type V = FragmentModel;

    open spec fn view(&self) -> FragmentModel {
        match self {
            Fragment::Bytes(b) => FragmentModel::Bytes(b@),
            Fragment::Pointer { symbol, offset } => FragmentModel::Pointer(
                *symbol as nat,
                *offset as nat,
            ),
        }
    }
}

/// A packed aggregate of byte literals and pointer literals.
#[derive(Debug)]
pub struct BackendConstant {
    pub fragments: Vec<Fragment>,
}

impl View for BackendConstant {
    type V = Seq<FragmentModel>;

    open spec fn view(&self) -> Seq<FragmentModel> {
        self.fragments@.map_values(|f: Fragment| f@)
    }
}

/// A field of a packed backend aggregate type.
#[derive(Clone, Copy, Debug, PartialEq, Eq, Structural)]
pub enum FieldKind {
    Bytes(usize),
    Pointer,
}

/// A backend type: a packed aggregate of byte runs and pointers.
#[derive(Debug)]
pub struct BackendType {
    pub fields: Vec<FieldKind>,
}

pub open spec fn field_of(f: FragmentModel) -> FieldKind {
    match f {
        FragmentModel::Bytes(b) => FieldKind::Bytes(b.len() as usize),
        FragmentModel::Pointer(_, _) => FieldKind::Pointer,
    }
}

/// The backend type implied by a constant.
pub open spec fn type_of(c: Seq<FragmentModel>) -> Seq<FieldKind> {
    c.map_values(|f: FragmentModel| field_of(f))
}

/// Number of bytes a fragment occupies.
pub open spec fn fragment_len(f: FragmentModel, ps: nat) -> nat {
    match f {
        FragmentModel::Bytes(b) => b.len(),
        FragmentModel::Pointer(_, _) => ps,
    }
}

/// Number of bytes a sequence of fragments occupies.
pub open spec fn total_len(c: Seq<FragmentModel>, ps: nat) -> nat
    decreases c.len(),
{
    if c.len() == 0 {
        0
    } else {
        total_len(c.drop_last(), ps) + fragment_len(c.last(), ps)
    }
}

/// The bytes of the byte literals of a sequence of fragments, in order.
pub open spec fn literal_bytes(c: Seq<FragmentModel>) -> Seq<u8>
    decreases c.len(),
{
    if c.len() == 0 {
        seq![]
    } else {
        literal_bytes(c.drop_last()) + match c.last() {
            FragmentModel::Bytes(b) => b,
            FragmentModel::Pointer(_, _) => seq![],
        }
    }
}

/// The byte span `[cursor, end)` as a fragment list: nothing when it is empty.
pub open spec fn gap(bytes: Seq<u8>, cursor: nat, end: nat) -> Seq<FragmentModel> {
    if cursor < end {
        seq![FragmentModel::Bytes(bytes.subrange(cursor as int, end as int))]
    } else {
        seq![]
    }
}

/// The fragments of `a` from relocation `k` on, with the cursor at `cursor`;
/// `syms` gives the symbol that holds each referenced allocation.
pub open spec fn fragments_from(
    a: Allocation,
    t: TargetInfo,
    syms: Map<int, nat>,
    k: nat,
    cursor: nat,
) -> Seq<FragmentModel>
    decreases a.relocations@.len() - k,
{
    if k >= a.relocations@.len() {
        gap(a.bytes@, cursor, a.bytes@.len())
    } else {
        let r = a.relocations@[k as int];
        let field = a.bytes@.subrange(r.offset as int, r.offset + t.pointer_size);
        gap(a.bytes@, cursor, r.offset as nat) + seq![
            FragmentModel::Pointer(syms[r.target as int], uint_value(t.endian, field)),
        ] + fragments_from(a, t, syms, k + 1, (r.offset + t.pointer_size) as nat)
    }
}

/// The constant that materializes allocation `a`.
pub open spec fn materialized(a: Allocation, t: TargetInfo, syms: Map<int, nat>) -> Seq<
    FragmentModel,
> {
    fragments_from(a, t, syms, 0, 0)
}

proof fn lemma_total_len_append(x: Seq<FragmentModel>, y: Seq<FragmentModel>, ps: nat)
    ensures
        total_len(x + y, ps) == total_len(x, ps) + total_len(y, ps),
    decreases y.len(),
{
    if y.len() == 0 {
        assert(x + y =~= x);
    } else {
        lemma_total_len_append(x, y.drop_last(), ps);
        assert((x + y).drop_last() =~= x + y.drop_last());
    }
}

proof fn lemma_fragments_from_len(
    a: Allocation,
    t: TargetInfo,
    syms: Map<int, nat>,
    k: nat,
    cursor: nat,
)
    requires
        a.relocations_wf(t.pointer_size as nat),
        k <= a.relocations@.len(),
        k < a.relocations@.len() ==> cursor <= a.relocations@[k as int].offset,
        cursor <= a.bytes@.len(),
    ensures
        total_len(fragments_from(a, t, syms, k, cursor), t.pointer_size as nat) == a.bytes@.len()
            - cursor,
    decreases a.relocations@.len() - k,
{
    let ps = t.pointer_size as nat;
    if k == a.relocations@.len() {
        reveal_with_fuel(total_len, 2);
    } else {
        let r = a.relocations@[k as int];
        let field = a.bytes@.subrange(r.offset as int, r.offset + t.pointer_size);
        let g = gap(a.bytes@, cursor, r.offset as nat);
        let p = seq![FragmentModel::Pointer(syms[r.target as int], uint_value(t.endian, field))];
        let rest = fragments_from(a, t, syms, k + 1, (r.offset + t.pointer_size) as nat);
        lemma_fragments_from_len(a, t, syms, k + 1, (r.offset + t.pointer_size) as nat);
        lemma_total_len_append(g + p, rest, ps);
        lemma_total_len_append(g, p, ps);
        reveal_with_fuel(total_len, 2);
    }
}

/// The fragments of a well-formed allocation cover it exactly: their lengths
/// add up to the allocation's length, with no gap and no overlap.
pub proof fn lemma_fragments_cover_allocation(a: Allocation, t: TargetInfo, syms: Map<int, nat>)
    requires
        a.relocations_wf(t.pointer_size as nat),
    ensures
        total_len(materialized(a, t, syms), t.pointer_size as nat) == a.bytes@.len(),
{
    lemma_fragments_from_len(a, t, syms, 0, 0);
}

/// An allocation without relocations materializes to its own bytes.
pub proof fn lemma_no_relocations_round_trip(a: Allocation, t: TargetInfo, syms: Map<int, nat>)
    requires
        a.relocations@.len() == 0,
    ensures
        literal_bytes(materialized(a, t, syms)) == a.bytes@,
{
    reveal_with_fuel(literal_bytes, 2);
    assert(a.bytes@.subrange(0, a.bytes@.len() as int) =~= a.bytes@);
    if a.bytes@.len() == 0 {
        assert(a.bytes@ =~= seq![]);
    } else {
        let c = materialized(a, t, syms);
        assert(c.drop_last() =~= seq![]);
        assert(seq![] + a.bytes@ =~= a.bytes@);
    }
}

} // verus!

verus! {

/// Byte-chunk encoder: the literal holding `bytes[start..end]`.
pub fn const_bytes(bytes: &Vec<u8>, start: usize, end: usize) -> (r: Fragment)
    requires
        start <= end <= bytes@.len(),
    ensures
        r@ == FragmentModel::Bytes(bytes@.subrange(start as int, end as int)),
{
    let mut out: Vec<u8> = Vec::new();
    let mut i: usize = start;
    while i < end
        invariant
            start <= i <= end <= bytes@.len(),
            out@ == bytes@.subrange(start as int, i as int),
        decreases end - i,
    {
        out.push(bytes[i]);
        i = i + 1;
        assert(out@ =~= bytes@.subrange(start as int, i as int));
    }
    Fragment::Bytes(out)
}

fn same_bytes(a: &Vec<u8>, b: &Vec<u8>) -> (r: bool)
    ensures
        r == (a@ == b@),
{
    if a.len() != b.len() {
        return false;
    }
    let mut i: usize = 0;
    while i < a.len()
        invariant
            a@.len() == b@.len(),
            i <= a@.len(),
            forall|j: int| 0 <= j < i ==> a@[j] == b@[j],
        decreases a@.len() - i,
    {
        if a[i] != b[i] {
            return false;
        }
        i = i + 1;
    }
    assert(a@ =~= b@);
    true
}

impl Fragment {
    pub fn same_as(&self, other: &Fragment) -> (r: bool)
        ensures
            r == (self@ == other@),
    {
        match (self, other) {
            (Fragment::Bytes(a), Fragment::Bytes(b)) => same_bytes(a, b),
            (
                Fragment::Pointer { symbol: s1, offset: o1 },
                Fragment::Pointer { symbol: s2, offset: o2 },
            ) => *s1 == *s2 && *o1 == *o2,
            _ => false,
        }
    }

    pub fn duplicate(&self) -> (r: Fragment)
        ensures
            r@ == self@,
    {
        match self {
            Fragment::Bytes(b) => {
                let c = const_bytes(b, 0, b.len());
                assert(b@.subrange(0, b@.len() as int) =~= b@);
                c
            },
            Fragment::Pointer { symbol, offset } => Fragment::Pointer {
                symbol: *symbol,
                offset: *offset,
            },
        }
    }

    pub fn field_kind(&self) -> (r: FieldKind)
        ensures
            r == field_of(self@),
    {
        match self {
            Fragment::Bytes(b) => FieldKind::Bytes(b.len()),
            Fragment::Pointer { .. } => FieldKind::Pointer,
        }
    }
}

impl BackendConstant {
    /// Structural identity: the same fragments in the same order.
    pub fn same_as(&self, other: &BackendConstant) -> (r: bool)
        ensures
            r == (self@ == other@),
    {
        let n = self.fragments.len();
        if n != other.fragments.len() {
            assert(self@.len() != other@.len());
            return false;
        }
        let mut i: usize = 0;
        while i < n
            invariant
                n == self.fragments@.len() == other.fragments@.len(),
                i <= n,
                forall|j: int| 0 <= j < i ==> self@[j] == other@[j],
            decreases n - i,
        {
            if !self.fragments[i].same_as(&other.fragments[i]) {
                assert(self@[i as int] != other@[i as int]);
                return false;
            }
            i = i + 1;
        }
        assert(self@ =~= other@);
        true
    }

    pub fn duplicate(&self) -> (r: BackendConstant)
        ensures
            r@ == self@,
    {
        let mut out: Vec<Fragment> = Vec::new();
        let mut i: usize = 0;
        while i < self.fragments.len()
            invariant
                i <= self.fragments@.len(),
                out@.len() == i,
                forall|j: int| 0 <= j < i ==> out@[j]@ == self.fragments@[j]@,
            decreases self.fragments@.len() - i,
        {
            out.push(self.fragments[i].duplicate());
            i = i + 1;
        }
        let r = BackendConstant { fragments: out };
        assert(r@ =~= self@);
        r
    }

    /// The backend type implied by the constant's fragments.
    pub fn val_ty(&self) -> (r: BackendType)
        ensures
            r@ == type_of(self@),
    {
        let mut out: Vec<FieldKind> = Vec::new();
        let mut i: usize = 0;
        while i < self.fragments.len()
            invariant
                i <= self.fragments@.len(),
                out@.len() == i,
                forall|j: int| 0 <= j < i ==> out@[j] == field_of(self.fragments@[j]@),
            decreases self.fragments@.len() - i,
        {
            out.push(self.fragments[i].field_kind());
            i = i + 1;
        }
        let r = BackendType { fields: out };
        assert(r@ =~= type_of(self@));
        r
    }
}

impl View for BackendType {
    type V = Seq<FieldKind>;

    open spec fn view(&self) -> Seq<FieldKind> {
        self.fields@
    }
}

impl BackendType {
    pub fn new(fields: Vec<FieldKind>) -> (r: BackendType)
        ensures
            r@ == fields@,
    {
        BackendType { fields }
    }

    pub fn same_as(&self, other: &BackendType) -> (r: bool)
        ensures
            r == (self@ == other@),
    {
        let n = self.fields.len();
        if n != other.fields.len() {
            return false;
        }
        let mut i: usize = 0;
        while i < n
            invariant
                n == self@.len() == other@.len(),
                i <= n,
                forall|j: int| 0 <= j < i ==> self@[j] == other@[j],
            decreases n - i,
        {
            if self.fields[i] != other.fields[i] {
                return false;
            }
            i = i + 1;
        }
        assert(self@ =~= other@);
        true
    }

    pub fn duplicate(&self) -> (r: BackendType)
        ensures
            r@ == self@,
    {
        let mut out: Vec<FieldKind> = Vec::new();
        let mut i: usize = 0;
        while i < self.fields.len()
            invariant
                i <= self@.len(),
                out@ == self@.take(i as int),
            decreases self@.len() - i,
        {
            out.push(self.fields[i]);
            i = i + 1;
            assert(out@ =~= self@.take(i as int));
        }
        assert(self@.take(self@.len() as int) =~= self@);
        BackendType { fields: out }
    }
}

} // verus!
