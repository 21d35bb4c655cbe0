use vstd::prelude::*;
use vstd::set_lib::{lemma_int_range, lemma_len_subset, set_int_range};

use crate::allocation::Allocation;
use crate::constant::{
    materialized, fragments_from, type_of, total_len, lemma_fragments_cover_allocation, BackendConstant, BackendType, Fragment, FragmentModel,
    TargetInfo, const_bytes,
};
use crate::allocation::read_target_uint;

verus! {

/// Linkage of a backend global.
#[derive(Clone, Copy, Debug, PartialEq, Eq, Structural)]
pub enum SymbolLinkage {
    Internal,
    External,
    Weak,
    Imported,
}

#[derive(Clone, Copy, Debug, PartialEq, Eq, Structural)]
pub enum Visibility {
    Default,
    Hidden,
}

/// Where a thread-local static is placed.
#[derive(Clone, Copy, Debug, PartialEq, Eq, Structural)]
pub enum TlsPlacement {
    /// The zero-initialized thread-local section.
    ZeroFill,
    /// The initialized thread-local data section.
    InitializedData,
}

/// Section placement of a backend global.
#[derive(Debug)]
pub enum Section {
    Default,
    /// A fixed thread-local section, forced so that its alignment is not raised.
    FixedThreadLocal(TlsPlacement),
    /// A custom section set as an ordinary section attribute.
    Named(String),
    /// A custom section recorded as auxiliary metadata of the object file.
    CustomMetadata(String),
}

/// What a backend global is initialized with.
#[derive(Debug)]
pub enum Initializer {
    /// Only declared here.
    Declared,
    /// Defined with a constant.
    Constant(BackendConstant),
    /// Defined with the address of another global.
    AddressOf(usize),
}

/// The name of a backend global.
#[derive(Debug)]
pub enum SymbolName {
    /// A symbol name given by the definition.
    Plain(String),
    /// The internal indirection global for the symbol of that name.
    WithLinkage(String),
    /// A generated local name: the prefix and a number unique in the unit.
    Local { prefix: String, index: u64 },
    /// An unnamed private global.
    Private,
}

impl SymbolName {
    /// Names of the globals that hold anonymous constants.
    pub open spec fn is_anonymous(&self) -> bool {
        self is Local || self is Private
    }

    pub open spec fn is_plain(&self, n: Seq<char>) -> bool {
        self is Plain && self->Plain_0@ == n
    }

    pub open spec fn is_with_linkage(&self, n: Seq<char>) -> bool {
        self is WithLinkage && self->WithLinkage_0@ == n
    }
}

/// A named, typed storage location of the backend.
#[derive(Debug)]
pub struct GlobalSymbol {
    pub name: SymbolName,
    pub ty: BackendType,
    pub linkage: SymbolLinkage,
    pub visibility: Visibility,
    pub thread_local: bool,
    pub tls_placement: Option<TlsPlacement>,
    pub section: Section,
    pub read_only: bool,
    pub init: Initializer,
}

impl GlobalSymbol {
    pub open spec fn holds(&self, c: Seq<FragmentModel>) -> bool {
        self.init is Constant && self.init->Constant_0@ == c
    }
}

/// An entry of the dedup cache: a constant and the global that holds it.
#[derive(Debug)]
pub struct CacheEntry {
    pub constant: BackendConstant,
    pub symbol: usize,
}

/// An entry of the instance map: a definition and its global.
#[derive(Clone, Copy, Debug, PartialEq, Eq, Structural)]
pub struct InstanceEntry {
    pub def_id: u64,
    pub symbol: usize,
}

/// A deferred rewrite: every use of `from` is to become a use of `to`.
#[derive(Clone, Copy, Debug, PartialEq, Eq, Structural)]
pub struct Redirect {
    pub from: usize,
    pub to: usize,
}

/// Platform quirks that change placement.
#[derive(Clone, Copy, Debug, PartialEq, Eq, Structural)]
pub struct PlatformConfig {
    /// The dynamic loader mishandles raised alignment of thread-local data:
    /// thread-local statics get a fixed section.
    pub fixed_tls_sections: bool,
    /// Custom sections are recorded as metadata instead of section attributes.
    pub custom_section_metadata: bool,
    /// Generated local names are not wanted.
    pub fewer_names: bool,
}

/// Errors of constant materialization.
#[derive(Clone, Copy, Debug, PartialEq, Eq, Structural)]
pub enum ConstError {
    /// The allocation at this index breaks the ordering or bounds invariant
    /// of its relocation table, or relocates to an unknown allocation.
    MalformedAllocation(usize),
    /// An allocation reaches itself through its relocations.
    CyclicReference,
}

/// The allocations of a table are well formed and refer only into the table.
pub open spec fn allocs_valid(allocs: Seq<Allocation>, ps: nat) -> bool {
    forall|i: int| 0 <= i < allocs.len() ==> #[trigger] alloc_valid(allocs[i], ps, allocs.len())
}

/// Allocation `x` has a relocation that refers to allocation `y`.
pub open spec fn relocates_to(allocs: Seq<Allocation>, x: int, y: int) -> bool {
    0 <= x < allocs.len() && exists|k: int|
        0 <= k < allocs[x].relocations@.len() && #[trigger] allocs[x].relocations@[k].target == y
}

/// Each allocation of `p` relocates to the next one.
pub open spec fn is_path(allocs: Seq<Allocation>, p: Seq<int>) -> bool {
    p.len() >= 1 && forall|i: int| 0 <= i < p.len() - 1 ==> #[trigger] relocates_to(allocs, p[i], p[i + 1])
}

/// Some path of relocations from `a` visits an allocation twice.
pub open spec fn cyclic_from(allocs: Seq<Allocation>, a: int) -> bool {
    exists|p: Seq<int>, i: int, j: int|
        #![trigger is_path(allocs, p), p[i], p[j]]
        is_path(allocs, p) && p[0] == a && 0 <= i < j < p.len() && p[i] == p[j]
}

/// The state of one compilation unit: its allocations, its globals, the dedup
/// cache, the instance map and the deferred rewrites.
pub struct CodegenCx {
    pub target: TargetInfo,
    pub config: PlatformConfig,
    pub allocs: Vec<Allocation>,
    pub symbols: Vec<GlobalSymbol>,
    pub const_globals: Vec<CacheEntry>,
    /// For each allocation, the global that holds it once materialized.
    pub alloc_symbols: Vec<Option<usize>>,
    pub instances: Vec<InstanceEntry>,
    /// Globals replaced by one of the initializer's type. Their uses are not
    /// rewritten in place, since other parts of the unit may hold them; the
    /// list is applied when the unit is finalized (see `redirected`).
    pub redirects: Vec<Redirect>,
    /// Order in which allocations were materialized.
    pub rank: Ghost<Map<int, nat>>,
    pub next_rank: Ghost<nat>,
}

impl CodegenCx {
    /// Allocation index to the global that holds its materialization.
    pub open spec fn memo_map(&self) -> Map<int, nat> {
        Map::new(
            |i: int| 0 <= i < self.alloc_symbols@.len() && self.alloc_symbols@[i] is Some,
            |i: int| self.alloc_symbols@[i]->Some_0 as nat,
        )
    }

    pub open spec fn holds_constant(&self, s: nat, c: Seq<FragmentModel>) -> bool {
        &&& s < self.symbols@.len()
        &&& self.symbols@[s as int].name.is_anonymous()
        &&& self.symbols@[s as int].read_only
        &&& self.symbols@[s as int].holds(c)
    }

    /// The dedup cache maps constant `c` to global `s`.
    pub open spec fn is_cached(&self, c: Seq<FragmentModel>, s: nat) -> bool {
        exists|j: int|
            0 <= j < self.const_globals@.len() && #[trigger] self.const_globals@[j].constant@ == c
                && self.const_globals@[j].symbol == s
    }

    /// The instance map binds definition `d` to global `s`.
    pub open spec fn instance_of(&self, d: u64, s: nat) -> bool {
        exists|j: int|
            0 <= j < self.instances@.len() && #[trigger] self.instances@[j].def_id == d
                && self.instances@[j].symbol == s
    }

    pub open spec fn has_instance(&self, d: u64) -> bool {
        exists|j: int| 0 <= j < self.instances@.len() && #[trigger] self.instances@[j].def_id == d
    }

    pub open spec fn memo_wf(&self) -> bool {
        let m = self.memo_map();
        &&& self.alloc_symbols@.len() == self.allocs@.len()
        &&& forall|i: int|
            #[trigger] m.dom().contains(i) ==> self.holds_constant(
                m[i],
                materialized(self.allocs@[i], self.target, m),
            )
        &&& forall|i: int, k: int|
            #![trigger m.dom().contains(i), self.allocs@[i].relocations@[k]]
            m.dom().contains(i) && 0 <= k < self.allocs@[i].relocations@.len() ==> {
                let t = self.allocs@[i].relocations@[k].target as int;
                &&& m.dom().contains(t)
                &&& self.rank@[t] < self.rank@[i]
            }
        &&& forall|i: int| #[trigger] m.dom().contains(i) ==> self.rank@[i] < self.next_rank@
    }

    pub open spec fn cache_wf(&self) -> bool {
        &&& forall|j: int|
            0 <= j < self.const_globals@.len() ==> #[trigger] self.holds_constant(
                self.const_globals@[j].symbol as nat,
                self.const_globals@[j].constant@,
            )
        &&& forall|i: int, j: int|
            0 <= i < j < self.const_globals@.len() ==> #[trigger] self.const_globals@[i].constant@
                != #[trigger] self.const_globals@[j].constant@
    }

    pub open spec fn instances_wf(&self) -> bool {
        &&& forall|j: int|
            0 <= j < self.instances@.len() ==> #[trigger] self.instances@[j].symbol
                < self.symbols@.len()
        &&& forall|i: int, j: int|
            0 <= i < j < self.instances@.len() ==> #[trigger] self.instances@[i].def_id
                != #[trigger] self.instances@[j].def_id
        &&& forall|j: int|
            0 <= j < self.redirects@.len() ==> #[trigger] self.redirects@[j].from
                < self.symbols@.len() && self.redirects@[j].to < self.symbols@.len()
    }

    /// A generated local name's number is the global's position, so no two
    /// generated names clash.
    pub open spec fn locals_wf(&self) -> bool {
        forall|k: int|
            0 <= k < self.symbols@.len() && (#[trigger] self.symbols@[k]).name is Local
                ==> self.symbols@[k].name->index == k as u64
    }

    pub open spec fn wf(&self) -> bool {
        &&& self.target.wf()
        &&& self.locals_wf()
        &&& allocs_valid(self.allocs@, self.target.pointer_size as nat)
        &&& self.memo_wf()
        &&& self.cache_wf()
        &&& self.instances_wf()
    }

    /// What every operation keeps: the allocations and the configuration, the
    /// existing globals that hold anonymous constants, the cache entries, the
    /// materialized allocations and the bound instances.
    pub open spec fn grows_to(&self, other: &CodegenCx) -> bool {
        &&& other.target == self.target
        &&& other.config == self.config
        &&& other.allocs@ == self.allocs@
        &&& self.symbols@.len() <= other.symbols@.len()
        &&& forall|s: nat, c: Seq<FragmentModel>|
            #[trigger] self.holds_constant(s, c) ==> other.holds_constant(s, c)
        &&& forall|c: Seq<FragmentModel>, s: nat| #[trigger] self.is_cached(c, s) ==> other.is_cached(c, s)
        &&& forall|i: int|
            #[trigger] self.memo_map().dom().contains(i) ==> other.memo_map().dom().contains(i)
                && other.memo_map()[i] == self.memo_map()[i]
        &&& forall|d: u64, s: nat| #[trigger] self.instance_of(d, s) ==> other.instance_of(d, s)
    }
}

} // verus!

verus! {

/// Allocation `a` is well formed and refers only into a table of `n` allocations.
pub open spec fn alloc_valid(a: Allocation, ps: nat, n: nat) -> bool {
    &&& a.relocations_wf(ps)
    &&& forall|k: int| 0 <= k < a.relocations@.len() ==> #[trigger] a.relocations@[k].target < n
}

/// The global that `static_addr_of_mut` creates for constant `c`.
pub open spec fn fresh_constant_symbol(
    sym: GlobalSymbol,
    c: Seq<FragmentModel>,
    kind: Option<String>,
    fewer_names: bool,
    index: nat,
) -> bool {
    &&& match kind {
        Some(k) if !fewer_names => sym.name is Local && sym.name->prefix@ == k@
            && sym.name->index == index,
        _ => sym.name is Private,
    }
    &&& sym.ty@ == type_of(c)
    &&& sym.linkage == SymbolLinkage::Internal
    &&& sym.visibility == Visibility::Default
    &&& !sym.thread_local
    &&& sym.tls_placement is None
    &&& sym.section is Default
    &&& sym.holds(c)
}

/// Only `symbols` changed, by pushing one global.
pub open spec fn pushed_symbol(old: &CodegenCx, new: &CodegenCx) -> bool {
    &&& new.target == old.target
    &&& new.config == old.config
    &&& new.allocs@ == old.allocs@
    &&& new.const_globals@ == old.const_globals@
    &&& new.alloc_symbols@ == old.alloc_symbols@
    &&& new.instances@ == old.instances@
    &&& new.redirects@ == old.redirects@
    &&& new.rank@ == old.rank@
    &&& new.next_rank@ == old.next_rank@
    &&& new.symbols@.len() == old.symbols@.len() + 1
    &&& forall|i: int| 0 <= i < old.symbols@.len() ==> new.symbols@[i] == old.symbols@[i]
}

/// The outcome of interning constant `c` into the dedup cache of `old`,
/// which returned global `r` and left `new`.
pub open spec fn interned(old: &CodegenCx, c: Seq<FragmentModel>, r: nat, new: &CodegenCx) -> bool {
    &&& old.grows_to(new)
    &&& new.is_cached(c, r)
    &&& new.holds_constant(r, c)
    &&& new.symbols@[r as int].read_only
    &&& (exists|s: nat| old.is_cached(c, s)) ==> {
        &&& old.is_cached(c, r)
        &&& new.symbols@ == old.symbols@
        &&& new.const_globals@ == old.const_globals@
    }
    &&& !(exists|s: nat| old.is_cached(c, s)) ==> {
        &&& r == old.symbols@.len()
        &&& new.symbols@.len() == old.symbols@.len() + 1
        &&& forall|i: int| 0 <= i < old.symbols@.len() ==> new.symbols@[i] == old.symbols@[i]
        &&& new.const_globals@.len() == old.const_globals@.len() + 1
        &&& forall|j: int|
            0 <= j < old.const_globals@.len() ==> new.const_globals@[j] == old.const_globals@[j]
    }
    &&& new.alloc_symbols@ == old.alloc_symbols@
    &&& new.instances@ == old.instances@
    &&& new.redirects@ == old.redirects@
    &&& new.rank@ == old.rank@
    &&& new.next_rank@ == old.next_rank@
}

/// Extending a unit's globals, cache entries and instances, and changing
/// none that exist, keeps what `grows_to` asks for and the invariant of the
/// materialized allocations and the existing cache entries.
pub proof fn lemma_extended(old: &CodegenCx, new: &CodegenCx)
    requires
        old.wf(),
        new.target == old.target,
        new.config == old.config,
        new.allocs@ == old.allocs@,
        new.alloc_symbols@ == old.alloc_symbols@,
        new.rank@ == old.rank@,
        new.next_rank@ == old.next_rank@,
        old.symbols@.len() <= new.symbols@.len(),
        forall|i: int| 0 <= i < old.symbols@.len() ==> new.symbols@[i] == old.symbols@[i],
        old.const_globals@.len() <= new.const_globals@.len(),
        forall|j: int|
            0 <= j < old.const_globals@.len() ==> new.const_globals@[j] == old.const_globals@[j],
        old.instances@.len() <= new.instances@.len(),
        forall|j: int| 0 <= j < old.instances@.len() ==> new.instances@[j] == old.instances@[j],
    ensures
        old.grows_to(new),
        new.memo_map() == old.memo_map(),
        new.memo_wf(),
        forall|q: int|
            0 <= q < old.const_globals@.len() ==> #[trigger] new.holds_constant(
                new.const_globals@[q].symbol as nat,
                new.const_globals@[q].constant@,
            ),
{
    assert(new.memo_map() =~= old.memo_map());
    assert forall|s: nat, c: Seq<FragmentModel>| #[trigger]
        old.holds_constant(s, c) implies new.holds_constant(s, c) by {
        assert(new.symbols@[s as int] == old.symbols@[s as int]);
    }
    assert forall|c: Seq<FragmentModel>, s: nat| #[trigger] old.is_cached(c, s) implies new.is_cached(
        c,
        s,
    ) by {
        let q = choose|q: int|
            0 <= q < old.const_globals@.len() && #[trigger] old.const_globals@[q].constant@ == c
                && old.const_globals@[q].symbol == s;
        assert(new.const_globals@[q] == old.const_globals@[q]);
    }
    assert forall|d: u64, s: nat| #[trigger] old.instance_of(d, s) implies new.instance_of(d, s) by {
        let q = choose|q: int|
            0 <= q < old.instances@.len() && #[trigger] old.instances@[q].def_id == d
                && old.instances@[q].symbol == s;
        assert(new.instances@[q] == old.instances@[q]);
    }
    assert forall|q: int| 0 <= q < old.const_globals@.len() implies #[trigger] new.holds_constant(
        new.const_globals@[q].symbol as nat,
        new.const_globals@[q].constant@,
    ) by {
        assert(old.holds_constant(
            old.const_globals@[q].symbol as nat,
            old.const_globals@[q].constant@,
        ));
    }
    assert forall|i: int| #[trigger] new.memo_map().dom().contains(i) implies new.holds_constant(
        new.memo_map()[i],
        materialized(new.allocs@[i], new.target, new.memo_map()),
    ) by {
        assert(old.holds_constant(
            old.memo_map()[i],
            materialized(old.allocs@[i], old.target, old.memo_map()),
        ));
    }
}

impl CodegenCx {
    /// Starts a unit over the allocations that constant evaluation produced;
    /// fails on the first allocation that is malformed.
    pub fn new(target: TargetInfo, config: PlatformConfig, allocs: Vec<Allocation>) -> (r: Result<
        CodegenCx,
        ConstError,
    >)
        requires
            target.wf(),
        ensures
            r is Ok <==> allocs_valid(allocs@, target.pointer_size as nat),
            r is Ok ==> {
                let cx = r->Ok_0;
                &&& cx.wf()
                &&& cx.target == target
                &&& cx.config == config
                &&& cx.allocs@ == allocs@
                &&& cx.symbols@.len() == 0
                &&& cx.const_globals@.len() == 0
                &&& cx.instances@.len() == 0
                &&& cx.redirects@.len() == 0
                &&& cx.memo_map().dom() == Set::<int>::empty()
            },
            r matches Err(ConstError::MalformedAllocation(i)) ==> i < allocs@.len() && !alloc_valid(
                allocs@[i as int],
                target.pointer_size as nat,
                allocs@.len() as nat,
            ),
            !(r matches Err(ConstError::CyclicReference)),
    {
        let n = allocs.len();
        let ps = target.pointer_size;
        let mut i: usize = 0;
        while i < n
            invariant
                n == allocs@.len(),
                ps == target.pointer_size,
                i <= n,
                forall|j: int|
                    0 <= j < i ==> #[trigger] alloc_valid(allocs@[j], ps as nat, n as nat),
            decreases n - i,
        {
            if !allocs[i].check_relocations(ps) {
                assert(!alloc_valid(allocs@[i as int], ps as nat, allocs@.len()));
                assert(!allocs_valid(allocs@, ps as nat));
                return Err(ConstError::MalformedAllocation(i));
            }
            let rel = &allocs[i].relocations;
            let mut k: usize = 0;
            while k < rel.len()
                invariant
                    n == allocs@.len(),
                    ps == target.pointer_size,
                    i < n,
                    rel@ == allocs@[i as int].relocations@,
                    k <= rel@.len(),
                    forall|q: int| 0 <= q < k ==> #[trigger] rel@[q].target < n,
                decreases rel@.len() - k,
            {
                if rel[k].target >= n {
                    assert(!alloc_valid(allocs@[i as int], ps as nat, allocs@.len()));
                    assert(!allocs_valid(allocs@, ps as nat));
                    return Err(ConstError::MalformedAllocation(i));
                }
                k = k + 1;
            }
            assert(alloc_valid(allocs@[i as int], ps as nat, n as nat));
            i = i + 1;
        }
        let mut alloc_symbols: Vec<Option<usize>> = Vec::new();
        let mut j: usize = 0;
        while j < n
            invariant
                j <= n,
                alloc_symbols@.len() == j,
                forall|q: int| 0 <= q < j ==> #[trigger] alloc_symbols@[q] is None,
            decreases n - j,
        {
            alloc_symbols.push(None);
            j = j + 1;
        }
        let cx = CodegenCx {
            target,
            config,
            allocs,
            symbols: Vec::new(),
            const_globals: Vec::new(),
            alloc_symbols,
            instances: Vec::new(),
            redirects: Vec::new(),
            rank: Ghost(Map::empty()),
            next_rank: Ghost(0),
        };
        assert(cx.memo_map().dom() =~= Set::<int>::empty());
        Ok(cx)
    }

    /// Creates a private global initialized with `cv`; it is named after
    /// `kind` when one is given and names are wanted.
    pub fn static_addr_of_mut(&mut self, cv: BackendConstant, kind: Option<String>) -> (r: usize)
        requires
            old(self).wf(),
        ensures
            final(self).wf(),
            pushed_symbol(old(self), final(self)),
            old(self).grows_to(final(self)),
            r == old(self).symbols@.len(),
            fresh_constant_symbol(
                final(self).symbols@[r as int],
                cv@,
                kind,
                old(self).config.fewer_names,
                r as nat,
            ),
            !final(self).symbols@[r as int].read_only,
            forall|k: int|
                0 <= k < r && (#[trigger] final(self).symbols@[k]).name is Local
                    ==> final(self).symbols@[k].name->index != r as u64,
    {
        let index = self.symbols.len();
        let name = match kind {
            Some(k) if !self.config.fewer_names => SymbolName::Local { prefix: k, index: index as u64 },
            _ => SymbolName::Private,
        };
        let ty = cv.val_ty();
        let sym = GlobalSymbol {
            name,
            ty,
            linkage: SymbolLinkage::Internal,
            visibility: Visibility::Default,
            thread_local: false,
            tls_placement: None,
            section: Section::Default,
            read_only: false,
            init: Initializer::Constant(cv),
        };
        let ghost old_cx = *self;
        self.symbols.push(sym);
        proof {
            lemma_extended(&old_cx, self);
        }
        index
    }

    /// Dedup cache: the global that holds a constant structurally equal to
    /// `cv`, created (private, read-only) on the first request.
    pub fn static_addr_of(&mut self, cv: BackendConstant, kind: Option<String>) -> (r: usize)
        requires
            old(self).wf(),
        ensures
            final(self).wf(),
            interned(old(self), cv@, r as nat, final(self)),
            !(exists|s: nat| old(self).is_cached(cv@, s)) ==> fresh_constant_symbol(
                final(self).symbols@[r as int],
                cv@,
                kind,
                old(self).config.fewer_names,
                r as nat,
            ),
    {
        let mut j: usize = 0;
        while j < self.const_globals.len()
            invariant
                self.wf(),
                j <= self.const_globals@.len(),
                forall|q: int| 0 <= q < j ==> #[trigger] self.const_globals@[q].constant@ != cv@,
            decreases self.const_globals@.len() - j,
        {
            if self.const_globals[j].constant.same_as(&cv) {
                let s = self.const_globals[j].symbol;
                proof {
                    assert(self.is_cached(cv@, s as nat));
                    assert(self.holds_constant(s as nat, cv@));
                }
                return s;
            }
            j = j + 1;
        }
        let ghost old_cx = *self;
        assert(!(exists|s: nat| old_cx.is_cached(cv@, s)));
        let copy = cv.duplicate();
        let s = self.static_addr_of_mut(copy, kind);
        self.symbols[s].read_only = true;
        self.const_globals.push(CacheEntry { constant: cv, symbol: s });
        proof {
            let n0 = old_cx.const_globals@.len() as int;
            assert(self.const_globals@[n0].constant@ == cv@);
            assert(self.is_cached(cv@, s as nat));
            assert(self.holds_constant(s as nat, cv@));
            lemma_extended(&old_cx, self);
            assert forall|q: int|
                0 <= q < self.const_globals@.len() implies #[trigger] self.holds_constant(
                self.const_globals@[q].symbol as nat,
                self.const_globals@[q].constant@,
            ) by {}
            assert forall|i: int, j2: int|
                0 <= i < j2 < self.const_globals@.len() implies #[trigger] self.const_globals@[i].constant@
                != #[trigger] self.const_globals@[j2].constant@ by {
                if j2 < n0 {
                    assert(old_cx.const_globals@[i].constant@ != old_cx.const_globals@[j2].constant@);
                } else {
                    assert(old_cx.const_globals@[i].constant@ != cv@);
                }
            }
        }
        s
    }
}

} // verus!

verus! {

/// Interning is idempotent, and distinct constants get distinct globals: a
/// second intern, into the unit the first one left, returns the first global
/// exactly when the two constants are structurally equal.
pub proof fn lemma_intern_idempotent(
    cx0: &CodegenCx,
    c1: Seq<FragmentModel>,
    r1: nat,
    cx1: &CodegenCx,
    c2: Seq<FragmentModel>,
    r2: nat,
    cx2: &CodegenCx,
)
    requires
        cx0.wf(),
        cx1.wf(),
        interned(cx0, c1, r1, cx1),
        interned(cx1, c2, r2, cx2),
    ensures
        (c1 == c2) <==> (r1 == r2),
{
    if c1 == c2 {
        let j1 = choose|j: int|
            0 <= j < cx1.const_globals@.len() && #[trigger] cx1.const_globals@[j].constant@ == c1
                && cx1.const_globals@[j].symbol == r1;
        assert(cx1.is_cached(c2, r1));
        let j2 = choose|j: int|
            0 <= j < cx1.const_globals@.len() && #[trigger] cx1.const_globals@[j].constant@ == c2
                && cx1.const_globals@[j].symbol == r2;
        if j1 < j2 {
            assert(cx1.const_globals@[j1].constant@ != cx1.const_globals@[j2].constant@);
        } else if j2 < j1 {
            assert(cx1.const_globals@[j2].constant@ != cx1.const_globals@[j1].constant@);
        }
    }
    if r1 == r2 {
        assert(cx2.holds_constant(r1, c1));
    }
}

/// Every relocation target of allocation `a` is materialized.
pub open spec fn targets_resolved(cx: &CodegenCx, a: int) -> bool {
    forall|k: int|
        0 <= k < cx.allocs@[a].relocations@.len() ==> #[trigger] cx.memo_map().dom().contains(
            cx.allocs@[a].relocations@[k].target as int,
        )
}

proof fn lemma_materialized_frame(
    a: Allocation,
    t: TargetInfo,
    m1: Map<int, nat>,
    m2: Map<int, nat>,
    k: nat,
    cursor: nat,
)
    requires
        forall|j: int|
            k <= j < a.relocations@.len() ==> #[trigger] m1.dom().contains(
                a.relocations@[j].target as int,
            ) && m2.dom().contains(a.relocations@[j].target as int) && m1[a.relocations@[j].target as int]
                == m2[a.relocations@[j].target as int],
    ensures
        fragments_from(a, t, m1, k, cursor) == fragments_from(a, t, m2, k, cursor),
    decreases a.relocations@.len() - k,
{
    if k < a.relocations@.len() {
        let r = a.relocations@[k as int];
        assert(m1.dom().contains(r.target as int) && m1[r.target as int] == m2[r.target as int]);
        lemma_materialized_frame(a, t, m1, m2, k + 1, (r.offset + t.pointer_size) as nat);
    }
}

/// `grows_to` is transitive.
pub proof fn lemma_grows_trans(x: &CodegenCx, y: &CodegenCx, z: &CodegenCx)
    requires
        x.grows_to(y),
        y.grows_to(z),
    ensures
        x.grows_to(z),
{
}

proof fn lemma_path_descends(cx: &CodegenCx, p: Seq<int>, i: int, j: int)
    requires
        cx.wf(),
        is_path(cx.allocs@, p),
        0 <= i < j < p.len(),
        cx.memo_map().dom().contains(p[i]),
    ensures
        cx.memo_map().dom().contains(p[j]),
        cx.rank@[p[j]] < cx.rank@[p[i]],
    decreases j - i,
{
    if j > i + 1 {
        lemma_path_descends(cx, p, i, j - 1);
    }
    let x = j - 1;
    assert(relocates_to(cx.allocs@, p[x], p[x + 1]));
    let k = choose|k: int|
        0 <= k < cx.allocs@[p[j - 1]].relocations@.len() && #[trigger] cx.allocs@[p[
            j - 1
        ]].relocations@[k].target == p[j];
    assert(cx.memo_map().dom().contains(p[j - 1]));
}

/// An allocation whose targets are all materialized reaches no cycle.
proof fn lemma_resolved_is_acyclic(cx: &CodegenCx, a: int)
    requires
        cx.wf(),
        0 <= a < cx.allocs@.len(),
        targets_resolved(cx, a),
    ensures
        !cyclic_from(cx.allocs@, a),
{
    if cyclic_from(cx.allocs@, a) {
        let (p, i, j) = choose|p: Seq<int>, i: int, j: int|
            #![trigger is_path(cx.allocs@, p), p[i], p[j]]
            is_path(cx.allocs@, p) && p[0] == a && 0 <= i < j < p.len() && p[i] == p[j];
        assert(is_path(cx.allocs@, p) && p[0] == a && 0 <= i < j < p.len() && p[i] == p[j]);
        assert(p.len() >= 2);
        assert(relocates_to(cx.allocs@, p[0], p[0int + 1]));
        let k = choose|k: int|
            0 <= k < cx.allocs@[a].relocations@.len() && #[trigger] cx.allocs@[a].relocations@[k].target
                == p[1];
        assert(cx.memo_map().dom().contains(p[1]));
        if i == 0 {
            if j > 1 {
                lemma_path_descends(cx, p, 1, j);
            }
            assert(cx.memo_map().dom().contains(a));
            assert(cx.rank@[p[1]] < cx.rank@[a]);
        } else {
            if i > 1 {
                lemma_path_descends(cx, p, 1, i);
            }
            lemma_path_descends(cx, p, i, j);
        }
    }
}

impl CodegenCx {
    /// Relocation resolver and aggregator: the constant for allocation `a`,
    /// once every target it relocates to is materialized.
    fn assemble(&self, a: usize) -> (r: BackendConstant)
        requires
            self.wf(),
            a < self.allocs@.len(),
            targets_resolved(self, a as int),
        ensures
            r@ == materialized(self.allocs@[a as int], self.target, self.memo_map()),
    {
        let alloc = &self.allocs[a];
        let ghost m = self.memo_map();
        let ghost spec_alloc = self.allocs@[a as int];
        let ps = self.target.pointer_size;
        let n = alloc.relocations.len();
        let len = alloc.bytes.len();
        assert(alloc_valid(spec_alloc, ps as nat, self.allocs@.len()));
        let mut out: Vec<Fragment> = Vec::new();
        let mut k: usize = 0;
        let mut cursor: usize = 0;
        while k < n
            invariant
                self.wf(),
                *alloc == spec_alloc,
                spec_alloc == self.allocs@[a as int],
                m == self.memo_map(),
                targets_resolved(self, a as int),
                ps == self.target.pointer_size,
                n == alloc.relocations@.len(),
                len == alloc.bytes@.len(),
                spec_alloc.relocations_wf(ps as nat),
                k <= n,
                cursor <= len,
                k < n ==> cursor <= alloc.relocations@[k as int].offset,
                out@.map_values(|f: Fragment| f@) + fragments_from(
                    spec_alloc,
                    self.target,
                    m,
                    k as nat,
                    cursor as nat,
                ) == materialized(spec_alloc, self.target, m),
            decreases n - k,
        {
            let ghost before = out@.map_values(|f: Fragment| f@);
            let rel = alloc.relocations[k];
            let ghost g = crate::constant::gap(alloc.bytes@, cursor as nat, rel.offset as nat);
            if rel.offset > cursor {
                out.push(const_bytes(&alloc.bytes, cursor, rel.offset));
            }
            assert(out@.map_values(|f: Fragment| f@) =~= before + g);
            let offset = read_target_uint(self.target.endian, &alloc.bytes, rel.offset, ps);
            assert(m.dom().contains(rel.target as int));
            let symbol = match self.alloc_symbols[rel.target] {
                Some(s) => s,
                None => 0,
            };
            let ghost mid = out@.map_values(|f: Fragment| f@);
            out.push(Fragment::Pointer { symbol, offset });
            assert(out@.map_values(|f: Fragment| f@) =~= mid.push(out@[mid.len() as int]@));
            let ghost p = seq![out@[mid.len() as int]@];
            let ghost rest = fragments_from(
                spec_alloc,
                self.target,
                m,
                (k + 1) as nat,
                (rel.offset + ps) as nat,
            );
            assert(before + (g + p + rest) =~= out@.map_values(|f: Fragment| f@) + rest);
            cursor = rel.offset + ps;
            k = k + 1;
        }
        let ghost before = out@.map_values(|f: Fragment| f@);
        if cursor < len {
            out.push(const_bytes(&alloc.bytes, cursor, len));
        }
        assert(out@.map_values(|f: Fragment| f@) =~= before + crate::constant::gap(
            alloc.bytes@,
            cursor as nat,
            len as nat,
        ));
        BackendConstant { fragments: out }
    }
}

} // verus!

verus! {

/// What materialization leaves unchanged besides what `grows_to` keeps.
pub open spec fn keeps_bindings(old: &CodegenCx, new: &CodegenCx) -> bool {
    &&& old.grows_to(new)
    &&& new.instances@ == old.instances@
    &&& new.redirects@ == old.redirects@
    &&& forall|i: int| 0 <= i < old.symbols@.len() ==> new.symbols@[i] == old.symbols@[i]
    &&& forall|i: int|
        old.symbols@.len() <= i < new.symbols@.len() ==> #[trigger] new.symbols@[i].name.is_anonymous()
}

impl CodegenCx {
    fn materialize(
        &mut self,
        a: usize,
        in_progress: &mut Vec<bool>,
        Ghost(path): Ghost<Seq<int>>,
        Ghost(on_path): Ghost<Set<int>>,
        Ghost(n): Ghost<int>,
    ) -> (r: Result<BackendConstant, ConstError>)
        requires
            old(self).wf(),
            n == old(self).allocs@.len(),
            a < n,
            old(in_progress)@.len() == n,
            forall|i: int| 0 <= i < n ==> (old(in_progress)@[i] <==> #[trigger] on_path.contains(i)),
            forall|x: int| on_path.contains(x) <==> #[trigger] path.contains(x),
            on_path.subset_of(set_int_range(0, n)),
            is_path(old(self).allocs@, path),
            path.last() == a,
        ensures
            final(self).wf(),
            keeps_bindings(old(self), final(self)),
            final(in_progress)@ == old(in_progress)@,
            forall|x: int|
                on_path.contains(x) && !old(self).memo_map().dom().contains(x)
                    ==> !#[trigger] final(self).memo_map().dom().contains(x),
            r is Ok ==> targets_resolved(final(self), a as int) && r->Ok_0@ == materialized(
                final(self).allocs@[a as int],
                final(self).target,
                final(self).memo_map(),
            ),
            r is Err ==> r->Err_0 == ConstError::CyclicReference && cyclic_from(
                old(self).allocs@,
                path[0],
            ),
        decreases n - on_path.len(),
    {
        proof {
            lemma_int_range(0, n);
            lemma_len_subset(on_path, set_int_range(0, n));
        }
        let ghost cx0 = *self;
        let nrel = self.allocs[a].relocations.len();
        let mut k: usize = 0;
        while k < nrel
            invariant
                self.wf(),
                cx0 == *old(self),
                keeps_bindings(&cx0, self),
                n == self.allocs@.len(),
                a < n,
                nrel == self.allocs@[a as int].relocations@.len(),
                k <= nrel,
                in_progress@ == old(in_progress)@,
                in_progress@.len() == n,
                forall|i: int| 0 <= i < n ==> (in_progress@[i] <==> #[trigger] on_path.contains(i)),
                forall|x: int| on_path.contains(x) <==> #[trigger] path.contains(x),
                on_path.subset_of(set_int_range(0, n)),
                on_path.finite(),
                on_path.len() <= n,
                is_path(self.allocs@, path),
                path.last() == a,
                forall|x: int|
                    on_path.contains(x) && !cx0.memo_map().dom().contains(x)
                        ==> !#[trigger] self.memo_map().dom().contains(x),
                forall|q: int|
                    0 <= q < k ==> #[trigger] self.memo_map().dom().contains(
                        self.allocs@[a as int].relocations@[q].target as int,
                    ),
            decreases nrel - k,
        {
            let t = self.allocs[a].relocations[k].target;
            proof {
                assert(alloc_valid(self.allocs@[a as int], self.target.pointer_size as nat, n as nat));
                assert(relocates_to(self.allocs@, a as int, t as int));
            }
            if self.alloc_symbols[t].is_none() {
                if in_progress[t] {
                    proof {
                        assert(path.contains(t as int));
                        let j = choose|j: int| 0 <= j < path.len() && path[j] == t as int;
                        let p = path.push(t as int);
                        assert forall|i: int| 0 <= i < p.len() - 1 implies #[trigger] relocates_to(
                            self.allocs@,
                            p[i],
                            p[i + 1],
                        ) by {
                            if i < path.len() - 1 {
                                assert(relocates_to(self.allocs@, path[i], path[i + 1]));
                            }
                        }
                        assert(is_path(cx0.allocs@, p));
                        assert(p[j] == p[path.len() as int]);
                        assert(cyclic_from(cx0.allocs@, path[0]));
                    }
                    return Err(ConstError::CyclicReference);
                }
                proof {
                    assert(!on_path.contains(t as int));
                    lemma_int_range(0, n);
                    assert(on_path.insert(t as int).subset_of(set_int_range(0, n)));
                    lemma_len_subset(on_path.insert(t as int), set_int_range(0, n));
                    assert forall|x: int|
                        on_path.insert(t as int).contains(x) <==> #[trigger] path.push(
                            t as int,
                        ).contains(x) by {
                        if path.contains(x) {
                            let j = choose|j: int| 0 <= j < path.len() && path[j] == x;
                            assert(path.push(t as int)[j] == x);
                        }
                        if x == t as int {
                            assert(path.push(t as int)[path.len() as int] == x);
                        }
                        if path.push(t as int).contains(x) {
                            let j = choose|j: int|
                                0 <= j < path.len() + 1 && path.push(t as int)[j] == x;
                            if j < path.len() {
                                assert(path[j] == x);
                            }
                        }
                    }
                    let p = path.push(t as int);
                    assert forall|i: int| 0 <= i < p.len() - 1 implies #[trigger] relocates_to(
                        self.allocs@,
                        p[i],
                        p[i + 1],
                    ) by {
                        if i < path.len() - 1 {
                            assert(relocates_to(self.allocs@, path[i], path[i + 1]));
                        }
                    }
                }
                in_progress.set(t, true);
                let ghost cx1 = *self;
                let sub = self.materialize(
                    t,
                    in_progress,
                    Ghost(path.push(t as int)),
                    Ghost(on_path.insert(t as int)),
                    Ghost(n),
                );
                in_progress.set(t, false);
                assert(in_progress@ =~= old(in_progress)@);
                match sub {
                    Err(e) => {
                        return Err(e);
                    },
                    Ok(c) => {
                        let ghost cx2 = *self;
                        let s = self.static_addr_of(c, None);
                        let ghost cx3 = *self;
                        self.alloc_symbols.set(t, Some(s));
                        self.rank = Ghost(self.rank@.insert(t as int, self.next_rank@));
                        self.next_rank = Ghost(self.next_rank@ + 1);
                        proof {
                            let m = cx3.memo_map();
                            assert(m =~= cx2.memo_map());
                            assert(!m.dom().contains(t as int));
                            assert forall|x: int|
                                on_path.contains(x) && !cx0.memo_map().dom().contains(x)
                                    implies !#[trigger] self.memo_map().dom().contains(x) by {
                                assert(on_path.insert(t as int).contains(x));
                                assert(!cx1.memo_map().dom().contains(x));
                                assert(!cx2.memo_map().dom().contains(x));
                                assert(x != t as int);
                                assert(!m.dom().contains(x));
                            }
                            assert(self.memo_map() =~= m.insert(t as int, s as nat));
                            lemma_materialized_frame(
                                self.allocs@[t as int],
                                self.target,
                                m,
                                self.memo_map(),
                                0,
                                0,
                            );
                            assert forall|i: int| #[trigger]
                                self.memo_map().dom().contains(i) implies self.holds_constant(
                                self.memo_map()[i],
                                materialized(self.allocs@[i], self.target, self.memo_map()),
                            ) by {
                                if i != t {
                                    assert(cx3.holds_constant(
                                        m[i],
                                        materialized(cx3.allocs@[i], cx3.target, m),
                                    ));
                                    assert forall|j: int|
                                        0 <= j < self.allocs@[i].relocations@.len() implies #[trigger] m.dom().contains(
                                        self.allocs@[i].relocations@[j].target as int,
                                    ) && self.memo_map().dom().contains(
                                        self.allocs@[i].relocations@[j].target as int,
                                    ) && m[self.allocs@[i].relocations@[j].target as int]
                                        == self.memo_map()[self.allocs@[i].relocations@[j].target as int] by {
                                        assert(m.dom().contains(i));
                                        assert(cx3.memo_map().dom().contains(
                                            cx3.allocs@[i].relocations@[j].target as int,
                                        ));
                                    }
                                    lemma_materialized_frame(
                                        self.allocs@[i],
                                        self.target,
                                        m,
                                        self.memo_map(),
                                        0,
                                        0,
                                    );
                                }
                            }
                            assert forall|i: int, q: int|
                                self.memo_map().dom().contains(i) && 0 <= q
                                    < self.allocs@[i].relocations@.len() implies {
                                let tt = #[trigger] self.allocs@[i].relocations@[q].target as int;
                                &&& self.memo_map().dom().contains(tt)
                                &&& self.rank@[tt] < self.rank@[i]
                            } by {
                                let tt = self.allocs@[i].relocations@[q].target as int;
                                if i != t {
                                    assert(m.dom().contains(i));
                                    assert(cx3.memo_map().dom().contains(
                                        cx3.allocs@[i].relocations@[q].target as int,
                                    ));
                                    assert(m.dom().contains(tt));
                                    assert(tt != t);
                                } else {
                                    assert(cx2.memo_map().dom().contains(
                                        cx2.allocs@[t as int].relocations@[q].target as int,
                                    ));
                                    assert(m.dom().contains(tt));
                                    assert(tt != t);
                                }
                            }
                            assert(self.memo_wf());
                            assert(self.symbols@ == cx3.symbols@);
                            assert(self.const_globals@ == cx3.const_globals@);
                            assert forall|q: int|
                                0 <= q < self.const_globals@.len() implies #[trigger] self.holds_constant(
                                self.const_globals@[q].symbol as nat,
                                self.const_globals@[q].constant@,
                            ) by {
                                assert(cx3.holds_constant(
                                    cx3.const_globals@[q].symbol as nat,
                                    cx3.const_globals@[q].constant@,
                                ));
                            }
                            assert(self.cache_wf());
                            assert(self.instances_wf());
                            assert(cx3.grows_to(self)) by {
                                assert forall|s2: nat, c2: Seq<FragmentModel>| #[trigger]
                                    cx3.holds_constant(s2, c2) implies self.holds_constant(
                                    s2,
                                    c2,
                                ) by {}
                                assert forall|c2: Seq<FragmentModel>, s2: nat| #[trigger]
                                    cx3.is_cached(c2, s2) implies self.is_cached(c2, s2) by {
                                    let q = choose|q: int|
                                        0 <= q < cx3.const_globals@.len() && #[trigger]
                                        cx3.const_globals@[q].constant@ == c2
                                            && cx3.const_globals@[q].symbol == s2;
                                    assert(self.const_globals@[q] == cx3.const_globals@[q]);
                                }
                                assert forall|d: u64, s2: nat| #[trigger]
                                    cx3.instance_of(d, s2) implies self.instance_of(d, s2) by {
                                    let q = choose|q: int|
                                        0 <= q < cx3.instances@.len() && #[trigger]
                                        cx3.instances@[q].def_id == d && cx3.instances@[q].symbol
                                            == s2;
                                    assert(self.instances@[q] == cx3.instances@[q]);
                                }
                            }
                            lemma_grows_trans(&cx0, &cx1, &cx2);
                            lemma_grows_trans(&cx0, &cx2, &cx3);
                            lemma_grows_trans(&cx0, &cx3, self);
                            lemma_grows_trans(&cx1, &cx2, &cx3);
                            lemma_grows_trans(&cx1, &cx3, self);
                            assert forall|i: int|
                                cx0.symbols@.len() <= i < self.symbols@.len() implies #[trigger] self.symbols@[i].name.is_anonymous() by {
                                if i >= cx2.symbols@.len() {
                                    assert(i == s);
                                }
                            }
                            assert forall|q: int| 0 <= q <= k implies #[trigger] self.memo_map().dom().contains(
                                self.allocs@[a as int].relocations@[q].target as int,
                            ) by {
                                if q < k {
                                    assert(cx1.memo_map().dom().contains(
                                        cx1.allocs@[a as int].relocations@[q].target as int,
                                    ));
                                }
                            }
                        }
                    },
                }
            }
            k = k + 1;
        }
        let c = self.assemble(a);
        Ok(c)
    }

}

} // verus!

verus! {

/// An allocation that relocates, directly or through others, back to itself
/// cannot be materialized: given the outcome that `const_alloc_to_gcc`
/// guarantees, it is the cyclic-reference error.
pub proof fn lemma_cycle_is_fatal(
    allocs: Seq<Allocation>,
    a: int,
    p: Seq<int>,
    r: Result<BackendConstant, ConstError>,
)
    requires
        is_path(allocs, p),
        p.len() >= 2,
        p[0] == a,
        p.last() == a,
        r is Ok <==> !cyclic_from(allocs, a),
    ensures
        r is Err,
{
    let last = p.len() - 1;
    assert(is_path(allocs, p) && p[0] == a && 0 <= 0 < last < p.len() && p[0] == p[last]);
}

} // verus!

verus! {

/// Materializes allocation `a` as one backend constant, first
/// materializing (and interning) every allocation it relocates to.
pub fn const_alloc_to_gcc(cx: &mut CodegenCx, a: usize) -> (r: Result<BackendConstant, ConstError>)
    requires
        old(cx).wf(),
        a < old(cx).allocs@.len(),
    ensures
        final(cx).wf(),
        keeps_bindings(old(cx), final(cx)),
        r is Ok <==> !cyclic_from(old(cx).allocs@, a as int),
        r is Ok ==> r->Ok_0@ == materialized(
            final(cx).allocs@[a as int],
            final(cx).target,
            final(cx).memo_map(),
        ),
        r is Ok ==> total_len(r->Ok_0@, final(cx).target.pointer_size as nat)
            == final(cx).allocs@[a as int].bytes@.len(),
        r is Err ==> r->Err_0 == ConstError::CyclicReference,
{
    let n = cx.allocs.len();
    let mut in_progress: Vec<bool> = Vec::new();
    let mut i: usize = 0;
    while i < n
        invariant
            i <= n,
            in_progress@.len() == i,
            forall|j: int| 0 <= j < i ==> !#[trigger] in_progress@[j],
        decreases n - i,
    {
        in_progress.push(false);
        i = i + 1;
    }
    in_progress.set(a, true);
    let ghost path = seq![a as int];
    let ghost on_path = set![a as int];
    assert(path[0] == a as int);
    assert(path.contains(a as int));
    let r = cx.materialize(a, &mut in_progress, Ghost(path), Ghost(on_path), Ghost(n as int));
    proof {
        if r is Ok {
            lemma_resolved_is_acyclic(cx, a as int);
            assert(alloc_valid(cx.allocs@[a as int], cx.target.pointer_size as nat, n as nat));
            lemma_fragments_cover_allocation(cx.allocs@[a as int], cx.target, cx.memo_map());
        }
    }
    r
}

} // verus!

verus! {

/// The last deferred rewrite of global `s` is the `j`-th.
pub open spec fn last_redirect_of(cx: &CodegenCx, s: usize, j: int) -> bool {
    &&& 0 <= j < cx.redirects@.len()
    &&& cx.redirects@[j].from == s
    &&& forall|k: int| j < k < cx.redirects@.len() ==> #[trigger] cx.redirects@[k].from != s
}

impl CodegenCx {
    /// The global that uses of `s` are rewritten to when the unit is
    /// finalized: the target of its last deferred rewrite, else `s` itself.
    pub fn redirected(&self, s: usize) -> (r: usize)
        ensures
            (exists|j: int| last_redirect_of(self, s, j)) ==> exists|j: int|
                last_redirect_of(self, s, j) && r == self.redirects@[j].to,
            !(exists|j: int| 0 <= j < self.redirects@.len() && #[trigger] self.redirects@[j].from
                == s) ==> r == s,
    {
        let mut i: usize = self.redirects.len();
        while i > 0
            invariant
                i <= self.redirects@.len(),
                forall|k: int| i <= k < self.redirects@.len() ==> #[trigger] self.redirects@[k].from != s,
            decreases i,
        {
            if self.redirects[i - 1].from == s {
                assert(last_redirect_of(self, s, i - 1));
                return self.redirects[i - 1].to;
            }
            i = i - 1;
        }
        s
    }
}

} // verus!
