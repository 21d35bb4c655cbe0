use vstd::prelude::*;

use crate::allocation::Allocation;
use crate::constant::{materialized, type_of, BackendType, FragmentModel};
use crate::consts::{
    const_alloc_to_gcc, cyclic_from, keeps_bindings, lemma_extended, lemma_grows_trans, CodegenCx,
    GlobalSymbol,
    Initializer, InstanceEntry, PlatformConfig, Redirect, Section, SymbolLinkage, SymbolName,
    TlsPlacement, Visibility,
};

verus! {

/// Where a static is defined, as seen from the current unit.
#[derive(Clone, Copy, Debug, PartialEq, Eq, Structural)]
pub enum DefOrigin {
    /// Defined in this unit.
    Local,
    /// Defined in another unit of the same program.
    OtherUnit,
    /// Foreign or external to the program.
    Foreign,
}

/// What the collaborators report about a static definition.
#[derive(Debug)]
pub struct StaticDef {
    pub def_id: u64,
    pub symbol_name: String,
    pub origin: DefOrigin,
    /// Backend type of the static's value type.
    pub ty: BackendType,
    /// Backend type of the pointee, when the static's type is a raw pointer.
    pub pointee: Option<BackendType>,
    /// Linkage the definition requests, if any.
    pub linkage: Option<SymbolLinkage>,
    pub is_mutable: bool,
    /// The value type holds no interior-mutable cell.
    pub is_freeze: bool,
    pub thread_local: bool,
    pub link_section: Option<String>,
    /// Reachable from other programs; unreachable statics are hidden.
    pub reachable: bool,
    /// The allocation that evaluating the initializer produced, or `None`
    /// when evaluation failed (already reported upstream).
    pub initializer: Option<usize>,
}

/// Failures of resolving a static.
#[derive(Clone, Copy, Debug, PartialEq, Eq, Structural)]
pub enum StaticError {
    /// The initializer could not be evaluated.
    EvalFailed,
    /// The initializer names no allocation of the unit.
    UnknownAllocation,
    /// The initializer's allocation reaches itself through its relocations.
    CyclicReference,
    /// An existing global of that name has another type.
    ConflictingTypes,
    /// A linkage attribute on a static whose type is not a raw pointer.
    LinkageNeedsPointer,
    /// A global of that name is already defined.
    AlreadyDefined,
}

/// Nothing the unit records changed.
pub open spec fn unchanged(old: &CodegenCx, new: &CodegenCx) -> bool {
    &&& new.symbols@ == old.symbols@
    &&& new.const_globals@ == old.const_globals@
    &&& new.alloc_symbols@ == old.alloc_symbols@
    &&& new.instances@ == old.instances@
    &&& new.redirects@ == old.redirects@
}

/// `i` is the last global named `name`.
pub open spec fn latest_plain(cx: &CodegenCx, name: Seq<char>, i: int) -> bool {
    &&& 0 <= i < cx.symbols@.len()
    &&& cx.symbols@[i].name.is_plain(name)
    &&& forall|j: int| i < j < cx.symbols@.len() ==> !#[trigger] cx.symbols@[j].name.is_plain(name)
}

pub open spec fn has_plain(cx: &CodegenCx, name: Seq<char>) -> bool {
    exists|i: int| 0 <= i < cx.symbols@.len() && #[trigger] cx.symbols@[i].name.is_plain(name)
}

pub open spec fn has_with_linkage(cx: &CodegenCx, name: Seq<char>) -> bool {
    exists|i: int|
        0 <= i < cx.symbols@.len() && #[trigger] cx.symbols@[i].name.is_with_linkage(name)
}

/// All but the globals and the deferred rewrites are equal.
pub open spec fn same_but_symbols(old: &CodegenCx, new: &CodegenCx) -> bool {
    &&& new.target == old.target
    &&& new.config == old.config
    &&& new.allocs@ == old.allocs@
    &&& new.const_globals@ == old.const_globals@
    &&& new.alloc_symbols@ == old.alloc_symbols@
    &&& new.instances@ == old.instances@
    &&& new.rank@ == old.rank@
    &&& new.next_rank@ == old.next_rank@
}

/// Only named globals changed or were added.
pub open spec fn named_edits(old: &CodegenCx, new: &CodegenCx) -> bool {
    &&& same_but_symbols(old, new)
    &&& old.symbols@.len() <= new.symbols@.len()
    &&& forall|i: int|
        0 <= i < old.symbols@.len() && #[trigger] old.symbols@[i].name.is_anonymous()
            ==> new.symbols@[i] == old.symbols@[i]
    &&& forall|j: int|
        0 <= j < new.redirects@.len() ==> #[trigger] new.redirects@[j].from < new.symbols@.len()
            && new.redirects@[j].to < new.symbols@.len()
    &&& forall|i: int|
        0 <= i < new.symbols@.len() && (#[trigger] new.symbols@[i]).name is Local ==> i
            < old.symbols@.len() && new.symbols@[i] == old.symbols@[i]
}

proof fn lemma_named_edits(old: &CodegenCx, new: &CodegenCx)
    requires
        old.wf(),
        named_edits(old, new),
    ensures
        new.wf(),
        old.grows_to(new),
{
    assert(new.memo_map() =~= old.memo_map());
    assert forall|s: nat, c: Seq<FragmentModel>| #[trigger]
        old.holds_constant(s, c) implies new.holds_constant(s, c) by {
        assert(old.symbols@[s as int].name.is_anonymous());
    }
    assert forall|c: Seq<FragmentModel>, s: nat| #[trigger]
        old.is_cached(c, s) implies new.is_cached(c, s) by {
        let q = choose|q: int|
            0 <= q < old.const_globals@.len() && #[trigger] old.const_globals@[q].constant@ == c
                && old.const_globals@[q].symbol == s;
        assert(new.const_globals@[q] == old.const_globals@[q]);
    }
    assert forall|d: u64, s: nat| #[trigger] old.instance_of(d, s) implies new.instance_of(d, s) by {
        let q = choose|q: int|
            0 <= q < old.instances@.len() && #[trigger] old.instances@[q].def_id == d
                && old.instances@[q].symbol == s;
        assert(new.instances@[q] == old.instances@[q]);
    }
    assert forall|q: int|
        0 <= q < new.const_globals@.len() implies #[trigger] new.holds_constant(
        new.const_globals@[q].symbol as nat,
        new.const_globals@[q].constant@,
    ) by {
        assert(old.holds_constant(
            old.const_globals@[q].symbol as nat,
            old.const_globals@[q].constant@,
        ));
    }
    assert forall|i: int|
        #[trigger] new.memo_map().dom().contains(i) implies new.holds_constant(
        new.memo_map()[i],
        materialized(new.allocs@[i], new.target, new.memo_map()),
    ) by {
        assert(old.holds_constant(
            old.memo_map()[i],
            materialized(old.allocs@[i], old.target, old.memo_map()),
        ));
    }
}

/// A fresh declaration of `name` with type `ty`.
pub open spec fn declared_symbol(sym: GlobalSymbol, name: Seq<char>, ty: Seq<crate::constant::FieldKind>) -> bool {
    &&& sym.name.is_plain(name)
    &&& sym.ty@ == ty
    &&& sym.linkage == SymbolLinkage::External
    &&& sym.visibility == Visibility::Default
    &&& !sym.thread_local
    &&& sym.tls_placement is None
    &&& sym.section is Default
    &&& !sym.read_only
    &&& sym.init is Declared
}

impl CodegenCx {
    /// The last global named `name`.
    pub fn find_symbol(&self, name: &String) -> (r: Option<usize>)
        ensures
            r matches Some(i) ==> latest_plain(self, name@, i as int),
            r is None ==> !has_plain(self, name@),
    {
        let mut i: usize = self.symbols.len();
        while i > 0
            invariant
                i <= self.symbols@.len(),
                forall|j: int|
                    i <= j < self.symbols@.len() ==> !#[trigger] self.symbols@[j].name.is_plain(
                        name@,
                    ),
            decreases i,
        {
            let found = match &self.symbols[i - 1].name {
                SymbolName::Plain(n) => *n == *name,
                _ => false,
            };
            if found {
                return Some(i - 1);
            }
            i = i - 1;
        }
        None
    }

    fn has_linkage_symbol(&self, name: &String) -> (r: bool)
        ensures
            r == has_with_linkage(self, name@),
    {
        let mut i: usize = 0;
        while i < self.symbols.len()
            invariant
                i <= self.symbols@.len(),
                forall|j: int|
                    0 <= j < i ==> !#[trigger] self.symbols@[j].name.is_with_linkage(name@),
            decreases self.symbols@.len() - i,
        {
            let found = match &self.symbols[i].name {
                SymbolName::WithLinkage(n) => *n == *name,
                _ => false,
            };
            if found {
                assert(self.symbols@[i as int].name.is_with_linkage(name@));
                return true;
            }
            i = i + 1;
        }
        false
    }

    /// The global bound to definition `def_id`, if any.
    pub fn lookup_instance(&self, def_id: u64) -> (r: Option<usize>)
        ensures
            r matches Some(s) ==> self.instance_of(def_id, s as nat),
            r is None ==> !self.has_instance(def_id),
    {
        let mut j: usize = 0;
        while j < self.instances.len()
            invariant
                j <= self.instances@.len(),
                forall|q: int| 0 <= q < j ==> #[trigger] self.instances@[q].def_id != def_id,
            decreases self.instances@.len() - j,
        {
            if self.instances[j].def_id == def_id {
                return Some(self.instances[j].symbol);
            }
            j = j + 1;
        }
        None
    }

    fn push_symbol(&mut self, sym: GlobalSymbol) -> (r: usize)
        requires
            old(self).wf(),
            !sym.name.is_anonymous(),
        ensures
            final(self).wf(),
            old(self).grows_to(final(self)),
            named_edits(old(self), final(self)),
            final(self).redirects@ == old(self).redirects@,
            r == old(self).symbols@.len(),
            final(self).symbols@ == old(self).symbols@.push(sym),
    {
        let r = self.symbols.len();
        let ghost cx0 = *self;
        self.symbols.push(sym);
        proof {
            assert forall|i: int|
                0 <= i < cx0.symbols@.len() && #[trigger] cx0.symbols@[i].name.is_anonymous()
                    implies self.symbols@[i] == cx0.symbols@[i] by {}
            lemma_named_edits(&cx0, self);
        }
        r
    }

    /// The global named `name`, declared with type `ty` when none exists.
    pub fn declare_global(&mut self, name: &String, ty: &BackendType) -> (r: usize)
        requires
            old(self).wf(),
        ensures
            final(self).wf(),
            old(self).grows_to(final(self)),
            named_edits(old(self), final(self)),
            final(self).redirects@ == old(self).redirects@,
            has_plain(old(self), name@) ==> latest_plain(old(self), name@, r as int)
                && final(self).symbols@ == old(self).symbols@,
            !has_plain(old(self), name@) ==> r == old(self).symbols@.len()
                && final(self).symbols@.len() == r + 1
                && declared_symbol(final(self).symbols@[r as int], name@, ty@)
                && forall|i: int| 0 <= i < r ==> final(self).symbols@[i] == old(self).symbols@[i],
            latest_plain(final(self), name@, r as int),
    {
        match self.find_symbol(name) {
            Some(i) => {
                proof {
                    assert(named_edits(old(self), self));
                }
                i
            },
            None => {
                let sym = GlobalSymbol {
                    name: SymbolName::Plain(name.clone()),
                    ty: ty.duplicate(),
                    linkage: SymbolLinkage::External,
                    visibility: Visibility::Default,
                    thread_local: false,
                    tls_placement: None,
                    section: Section::Default,
                    read_only: false,
                    init: Initializer::Declared,
                };
                self.push_symbol(sym)
            },
        }
    }

    fn bind_instance(&mut self, def_id: u64, s: usize)
        requires
            old(self).wf(),
            !old(self).has_instance(def_id),
            s < old(self).symbols@.len(),
        ensures
            final(self).wf(),
            old(self).grows_to(final(self)),
            final(self).instance_of(def_id, s as nat),
            final(self).symbols@ == old(self).symbols@,
            final(self).redirects@ == old(self).redirects@,
            final(self).memo_map() == old(self).memo_map(),
    {
        let ghost cx0 = *self;
        self.instances.push(InstanceEntry { def_id, symbol: s });
        proof {
            let n0 = cx0.instances@.len() as int;
            assert(self.instances@[n0].def_id == def_id);
            lemma_extended(&cx0, self);
            assert forall|i: int, j: int|
                0 <= i < j < self.instances@.len() implies #[trigger] self.instances@[i].def_id
                != #[trigger] self.instances@[j].def_id by {
                if j == n0 {
                    assert(cx0.instances@[i].def_id != def_id);
                } else {
                    assert(cx0.instances@[i].def_id != cx0.instances@[j].def_id);
                }
            }
        }
    }
}

} // verus!

verus! {

/// Placement of a thread-local static: zero-filled exactly when its
/// allocation has no relocations and only zero bytes.
pub open spec fn tls_placement_of(def: &StaticDef, a: Allocation) -> Option<TlsPlacement> {
    if def.thread_local {
        Some(
            if a.all_zero() {
                TlsPlacement::ZeroFill
            } else {
                TlsPlacement::InitializedData
            },
        )
    } else {
        None
    }
}

/// The section a defined static gets.
pub open spec fn section_for(
    sec: Section,
    def: &StaticDef,
    config: PlatformConfig,
    tls: Option<TlsPlacement>,
) -> bool {
    match def.link_section {
        Some(n) => if config.custom_section_metadata {
            sec is CustomMetadata && sec->CustomMetadata_0@ == n@
        } else {
            sec is Named && sec->Named_0@ == n@
        },
        None => match tls {
            Some(p) if config.fixed_tls_sections => sec is FixedThreadLocal
                && sec->FixedThreadLocal_0 == p,
            _ => sec is Default,
        },
    }
}

/// The last global named `name` is already defined.
pub open spec fn plain_defined(cx: &CodegenCx, name: Seq<char>) -> bool {
    exists|i: int| latest_plain(cx, name, i) && !(cx.symbols@[i].init is Declared)
}

/// Type of the global a definition is first declared with: that of the
/// last global of its name, else its own.
pub open spec fn declared_type(cx: &CodegenCx, def: &StaticDef) -> Seq<crate::constant::FieldKind> {
    if has_plain(cx, def.symbol_name@) {
        cx.symbols@[choose|i: int| latest_plain(cx, def.symbol_name@, i)].ty@
    } else {
        def.ty@
    }
}

/// Global `s` of `cx` is the definition of `def`, initialized from allocation `a`.
pub open spec fn local_symbol_ok(cx: &CodegenCx, def: &StaticDef, s: nat, a: int) -> bool {
    let sym = cx.symbols@[s as int];
    let c = materialized(cx.allocs@[a], cx.target, cx.memo_map());
    let tls = tls_placement_of(def, cx.allocs@[a]);
    &&& s < cx.symbols@.len()
    &&& sym.name.is_plain(def.symbol_name@)
    &&& sym.holds(c)
    &&& sym.ty@ == type_of(c)
    &&& sym.read_only == (!def.is_mutable && def.is_freeze)
    &&& sym.thread_local == def.thread_local
    &&& sym.tls_placement == tls
    &&& section_for(sym.section, def, cx.config, tls)
}

/// Which globals defining `def` as global `s` touched. The global the name
/// was declared with is the last of that name in `old`, else a fresh
/// declaration. When its type is the initializer's it becomes `s`; else it
/// stays as it was, `s` is a new replacement, and one deferred rewrite from
/// it to `s` is recorded. No other named global is added or changed.
pub open spec fn redirect_ok(old: &CodegenCx, def: &StaticDef, s: nat, new: &CodegenCx, a: int) -> bool {
    let c = materialized(new.allocs@[a], new.target, new.memo_map());
    let name = def.symbol_name@;
    &&& forall|k: int|
        0 <= k < old.symbols@.len() && k != s ==> #[trigger] new.symbols@[k] == old.symbols@[k]
    &&& if declared_type(old, def) == type_of(c) {
        &&& new.redirects@ == old.redirects@
        &&& has_plain(old, name) ==> latest_plain(old, name, s as int)
        &&& !has_plain(old, name) ==> old.symbols@.len() <= s
        &&& forall|k: int|
            old.symbols@.len() <= k < new.symbols@.len() && k != s
                ==> #[trigger] new.symbols@[k].name.is_anonymous()
    } else {
        let from = new.redirects@.last().from as int;
        &&& new.redirects@.len() == old.redirects@.len() + 1
        &&& new.redirects@.drop_last() == old.redirects@
        &&& new.redirects@.last().to == s
        &&& from != s
        &&& has_plain(old, name) ==> latest_plain(old, name, from)
        &&& !has_plain(old, name) ==> old.symbols@.len() <= from && declared_symbol(
            new.symbols@[from],
            name,
            def.ty@,
        )
        &&& forall|k: int|
            old.symbols@.len() <= k < new.symbols@.len() && k != s && k != from
                ==> #[trigger] new.symbols@[k].name.is_anonymous()
    }
}

/// Outcome of defining a static of this unit.
pub open spec fn local_outcome(
    old: &CodegenCx,
    def: &StaticDef,
    r: Result<usize, StaticError>,
    new: &CodegenCx,
) -> bool {
    match def.initializer {
        None => r == Err::<usize, StaticError>(StaticError::EvalFailed) && unchanged(old, new),
        Some(a) => if a >= old.allocs@.len() {
            r == Err::<usize, StaticError>(StaticError::UnknownAllocation) && unchanged(old, new)
        } else if plain_defined(old, def.symbol_name@) {
            r == Err::<usize, StaticError>(StaticError::AlreadyDefined) && unchanged(old, new)
        } else if cyclic_from(old.allocs@, a as int) {
            r == Err::<usize, StaticError>(StaticError::CyclicReference) && keeps_bindings(old, new)
        } else {
            &&& r is Ok
            &&& local_symbol_ok(new, def, r->Ok_0 as nat, a as int)
            &&& redirect_ok(old, def, r->Ok_0 as nat, new, a as int)
        }
    }
}

/// What every resolution guarantees: a bound definition keeps its global,
/// success binds it, and failure binds nothing.
pub open spec fn resolved(
    old: &CodegenCx,
    d: u64,
    r: Result<usize, StaticError>,
    new: &CodegenCx,
) -> bool {
    &&& old.grows_to(new)
    &&& forall|s: nat| #[trigger] old.instance_of(d, s) ==> r == Ok::<usize, StaticError>(s as usize)
    &&& r is Ok ==> new.instance_of(d, r->Ok_0 as nat)
    &&& r is Err ==> new.instances@ == old.instances@
}

proof fn lemma_latest_unique(cx: &CodegenCx, name: Seq<char>, i: int, j: int)
    requires
        latest_plain(cx, name, i),
        latest_plain(cx, name, j),
    ensures
        i == j,
{
    if i < j {
        assert(!cx.symbols@[j].name.is_plain(name));
    } else if j < i {
        assert(!cx.symbols@[i].name.is_plain(name));
    }
}

proof fn lemma_keeps_plain(old: &CodegenCx, new: &CodegenCx, name: Seq<char>)
    requires
        keeps_bindings(old, new),
    ensures
        forall|i: int| latest_plain(old, name, i) ==> #[trigger] latest_plain(new, name, i),
        !has_plain(old, name) ==> !has_plain(new, name),
{
    assert forall|i: int| latest_plain(old, name, i) implies #[trigger] latest_plain(new, name, i) by {
        assert forall|j: int| i < j < new.symbols@.len() implies !#[trigger] new.symbols@[j].name.is_plain(
            name,
        ) by {
            if j < old.symbols@.len() {
                assert(new.symbols@[j] == old.symbols@[j]);
            } else {
                assert(new.symbols@[j].name.is_anonymous());
            }
        }
    }
    if has_plain(new, name) {
        let j = choose|j: int| 0 <= j < new.symbols@.len() && #[trigger] new.symbols@[j].name.is_plain(name);
        if j < old.symbols@.len() {
            assert(new.symbols@[j] == old.symbols@[j]);
        } else {
            assert(new.symbols@[j].name.is_anonymous());
        }
    }
}

impl CodegenCx {

    /// Defines the static `def` of this unit: materializes its initializer,
    /// binds it to the global of its name (a replacement of the initializer's
    /// type where the declared type differs, with a deferred rewrite), and
    /// applies read-only promotion, thread-local placement and its section.
    pub fn codegen_static(&mut self, def: &StaticDef) -> (r: Result<usize, StaticError>)
        requires
            old(self).wf(),
            !old(self).has_instance(def.def_id),
        ensures
            final(self).wf(),
            resolved(old(self), def.def_id, r, final(self)),
            local_outcome(old(self), def, r, final(self)),
    {
        let a = match def.initializer {
            None => return Err(StaticError::EvalFailed),
            Some(a) => a,
        };
        if a >= self.allocs.len() {
            return Err(StaticError::UnknownAllocation);
        }
        let found = self.find_symbol(&def.symbol_name);
        if let Some(i) = found {
            let defined = match &self.symbols[i].init {
                Initializer::Declared => false,
                _ => true,
            };
            if defined {
                return Err(StaticError::AlreadyDefined);
            }
            proof {
                assert forall|j: int| latest_plain(self, def.symbol_name@, j) implies (
                self.symbols@[j].init is Declared) by {
                    lemma_latest_unique(self, def.symbol_name@, i as int, j);
                }
            }
        }
        let ghost cx0 = *self;
        let c = match codegen_static_initializer(self, def) {
            Ok((c, _)) => c,
            Err(e) => return Err(e),
        };
        let ghost cx1 = *self;
        proof {
            lemma_keeps_plain(&cx0, &cx1, def.symbol_name@);
        }
        let g = self.declare_global(&def.symbol_name, &def.ty);
        let ghost cx2 = *self;
        proof {
            if let Some(i) = found {
                lemma_latest_unique(&cx0, def.symbol_name@, i as int, choose|j: int| latest_plain(&cx0, def.symbol_name@, j));
                assert(latest_plain(&cx1, def.symbol_name@, i as int));
                lemma_latest_unique(&cx1, def.symbol_name@, i as int, g as int);
                assert(cx2.symbols@[g as int] == cx0.symbols@[g as int]);
            }
            assert(declared_type(&cx0, def) == cx2.symbols@[g as int].ty@);
        }
        let ghost r0 = self.redirects@;
        let ty_c = c.val_ty();
        let same = self.symbols[g].ty.same_as(&ty_c);
        let s = if !same {
            let linkage = self.symbols[g].linkage;
            let visibility = self.symbols[g].visibility;
            let sym = GlobalSymbol {
                name: SymbolName::Plain(def.symbol_name.clone()),
                ty: ty_c,
                linkage,
                visibility,
                thread_local: false,
                tls_placement: None,
                section: Section::Default,
                read_only: false,
                init: Initializer::Declared,
            };
            let s = self.push_symbol(sym);
            self.redirects.push(Redirect { from: g, to: s });
            assert(self.redirects@.drop_last() =~= r0);
            assert(self.redirects@ == r0.push(Redirect { from: g, to: s }));
            s
        } else {
            g
        };
        let ghost cx4 = *self;
        proof {
            assert(same ==> s == g && cx4.symbols@ == cx2.symbols@ && cx4.redirects@ == r0);
            assert(!same ==> s == cx2.symbols@.len() && cx4.symbols@.len() == cx2.symbols@.len()
                + 1 && cx4.redirects@ == r0.push(Redirect { from: g, to: s }));
            assert(forall|k: int|
                0 <= k < cx2.symbols@.len() ==> cx4.symbols@[k] == cx2.symbols@[k]);
        }
        let placement = if self.allocs[a].is_all_zero() {
            TlsPlacement::ZeroFill
        } else {
            TlsPlacement::InitializedData
        };
        let section = match &def.link_section {
            Some(n) => if self.config.custom_section_metadata {
                Section::CustomMetadata(n.clone())
            } else {
                Section::Named(n.clone())
            },
            None => if def.thread_local && self.config.fixed_tls_sections {
                Section::FixedThreadLocal(placement)
            } else {
                Section::Default
            },
        };
        self.symbols[s].init = Initializer::Constant(c);
        self.symbols[s].read_only = !def.is_mutable && def.is_freeze;
        self.symbols[s].thread_local = def.thread_local;
        self.symbols[s].tls_placement = if def.thread_local {
            Some(placement)
        } else {
            None
        };
        self.symbols[s].section = section;
        proof {
            assert(forall|k: int| 0 <= k < self.symbols@.len() && k != s ==> self.symbols@[k]
                == cx4.symbols@[k]);
            assert(self.symbols@.len() == cx4.symbols@.len());
            assert(self.symbols@[s as int].name == cx4.symbols@[s as int].name);
            assert(self.redirects@ == cx4.redirects@);
            assert forall|j: int| 0 <= j < self.redirects@.len() implies #[trigger] self.redirects@[j].from
                < self.symbols@.len() && self.redirects@[j].to < self.symbols@.len() by {
                assert(r0 == cx2.redirects@);
                assert(cx2.instances_wf());
                if j < cx2.redirects@.len() {
                    assert(self.redirects@[j] == cx2.redirects@[j]);
                    assert(cx2.redirects@[j].from < cx2.symbols@.len());
                } else {
                    assert(!same);
                    assert(g < cx2.symbols@.len());
                    assert(self.redirects@[j] == Redirect { from: g, to: s });
                }
            }
            assert(named_edits(&cx2, self));
            lemma_named_edits(&cx2, self);
            lemma_grows_trans(&cx0, &cx1, &cx2);
            lemma_grows_trans(&cx0, &cx2, self);
            assert(self.memo_map() =~= cx1.memo_map());
        }
        let ghost cx3 = *self;
        self.bind_instance(def.def_id, s);
        proof {
            lemma_grows_trans(&cx0, &cx3, self);
            let name = def.symbol_name@;
            assert(same == (declared_type(old(self), def) == type_of(
                materialized(self.allocs@[a as int], self.target, self.memo_map()),
            )));
            assert forall|k: int| 0 <= k < cx0.symbols@.len() && k != s implies #[trigger]
                self.symbols@[k] == cx0.symbols@[k] by {
                assert(cx1.symbols@[k] == cx0.symbols@[k]);
                assert(cx2.symbols@[k] == cx1.symbols@[k]);
            }
            assert forall|k: int|
                cx0.symbols@.len() <= k < self.symbols@.len() && k != s && k != g implies #[trigger]
                self.symbols@[k].name.is_anonymous() by {
                assert(k < cx1.symbols@.len());
                assert(cx1.symbols@[k].name.is_anonymous());
                assert(cx2.symbols@[k] == cx1.symbols@[k]);
            }
            if !has_plain(&cx0, name) {
                assert(g == cx1.symbols@.len());
            }
            assert(redirect_ok(old(self), def, s as nat, self, a as int));
        }
        Ok(s)
    }
}


} // verus!

verus! {

/// Outcome of referring to a static defined in another unit of the program:
/// a requested linkage is handled as for a foreign static.
pub open spec fn import_outcome(
    old: &CodegenCx,
    def: &StaticDef,
    r: Result<usize, StaticError>,
    new: &CodegenCx,
) -> bool {
    let name = def.symbol_name@;
    if def.linkage is Some {
        linkage_outcome(old, def, r, new)
    } else if has_plain(old, name) && old.symbols@[choose|i: int| latest_plain(old, name, i)].ty@
        != def.ty@ {
        r == Err::<usize, StaticError>(StaticError::ConflictingTypes) && unchanged(old, new)
    } else {
        &&& r is Ok
        &&& bound_declaration(old, def, r->Ok_0 as nat, new)
        &&& !def.reachable ==> new.symbols@[r->Ok_0 as int].visibility == Visibility::Hidden
    }
}

/// Global `s` of `new` is the last global named after `def` in `old`, or a
/// fresh external declaration of `def`'s type; thread-local where `def` is.
pub open spec fn bound_declaration(old: &CodegenCx, def: &StaticDef, s: nat, new: &CodegenCx) -> bool {
    let name = def.symbol_name@;
    let sym = new.symbols@[s as int];
    &&& s < new.symbols@.len()
    &&& sym.name.is_plain(name)
    &&& has_plain(old, name) ==> latest_plain(old, name, s as int)
    &&& !has_plain(old, name) ==> {
        &&& s == old.symbols@.len()
        &&& sym.ty@ == def.ty@
        &&& sym.linkage == SymbolLinkage::External
        &&& sym.init is Declared
    }
    &&& def.thread_local ==> sym.thread_local
    &&& new.symbols@.len() == if has_plain(old, name) {
        old.symbols@.len()
    } else {
        old.symbols@.len() + 1
    }
    &&& forall|k: int|
        0 <= k < old.symbols@.len() && k != s ==> #[trigger] new.symbols@[k] == old.symbols@[k]
}

/// The declaration `g1` with the requested linkage and the internal global
/// `g2` initialized with its address.
pub open spec fn indirection_ok(
    new: &CodegenCx,
    def: &StaticDef,
    g1: nat,
    g2: nat,
    l: SymbolLinkage,
    pointee: BackendType,
) -> bool {
    &&& g1 < g2 < new.symbols@.len()
    &&& new.symbols@[g1 as int].name.is_plain(def.symbol_name@)
    &&& new.symbols@[g1 as int].ty@ == pointee@
    &&& new.symbols@[g1 as int].linkage == l
    &&& new.symbols@[g1 as int].init is Declared
    &&& new.symbols@[g2 as int].name.is_with_linkage(def.symbol_name@)
    &&& new.symbols@[g2 as int].ty@ == def.ty@
    &&& new.symbols@[g2 as int].linkage == SymbolLinkage::Internal
    &&& new.symbols@[g2 as int].init == Initializer::AddressOf(g1 as usize)
    &&& def.thread_local ==> new.symbols@[g2 as int].thread_local
}

/// Outcome of referring to a foreign static.
pub open spec fn linkage_outcome(
    old: &CodegenCx,
    def: &StaticDef,
    r: Result<usize, StaticError>,
    new: &CodegenCx,
) -> bool {
    match def.linkage {
        Some(l) => match def.pointee {
            None => r == Err::<usize, StaticError>(StaticError::LinkageNeedsPointer) && unchanged(
                old,
                new,
            ),
            Some(p) => if has_with_linkage(old, def.symbol_name@) {
                r == Err::<usize, StaticError>(StaticError::AlreadyDefined) && unchanged(old, new)
            } else {
                &&& r == Ok::<usize, StaticError>((old.symbols@.len() + 1) as usize)
                &&& indirection_ok(new, def, old.symbols@.len(), old.symbols@.len() + 1, l, p)
                &&& new.symbols@.len() == old.symbols@.len() + 2
                &&& forall|k: int|
                    0 <= k < old.symbols@.len() ==> #[trigger] new.symbols@[k] == old.symbols@[k]
            },
        },
        None => r is Ok && bound_declaration(old, def, r->Ok_0 as nat, new),
    }
}

impl CodegenCx {
    fn mark_thread_local(&mut self, s: usize)
        requires
            old(self).wf(),
            s < old(self).symbols@.len(),
            !old(self).symbols@[s as int].name.is_anonymous(),
        ensures
            final(self).wf(),
            old(self).grows_to(final(self)),
            same_but_symbols(old(self), final(self)),
            final(self).redirects@ == old(self).redirects@,
            final(self).symbols@ == old(self).symbols@.update(
                s as int,
                GlobalSymbol { thread_local: true, ..old(self).symbols@[s as int] },
            ),
    {
        let ghost cx0 = *self;
        self.symbols[s].thread_local = true;
        proof {
            assert(self.symbols@ =~= cx0.symbols@.update(
                s as int,
                GlobalSymbol { thread_local: true, ..cx0.symbols@[s as int] },
            ));
            lemma_named_edits(&cx0, self);
        }
    }

    /// Declares a foreign static. With a requested linkage the static must be
    /// a raw pointer: its pointee is declared with that linkage, and an
    /// internal global named after it holds its address, so that a weak
    /// symbol the linker drops reads as null.
    fn check_and_apply_linkage(&mut self, def: &StaticDef) -> (r: Result<usize, StaticError>)
        requires
            old(self).wf(),
        ensures
            final(self).wf(),
            old(self).grows_to(final(self)),
            same_but_symbols(old(self), final(self)),
            final(self).redirects@ == old(self).redirects@,
            linkage_outcome(old(self), def, r, final(self)),
    {
        let s = match def.linkage {
            Some(l) => {
                let pointee = match &def.pointee {
                    None => return Err(StaticError::LinkageNeedsPointer),
                    Some(p) => p,
                };
                if self.has_linkage_symbol(&def.symbol_name) {
                    return Err(StaticError::AlreadyDefined);
                }
                let ghost cx0 = *self;
                let g1 = self.push_symbol(
                    GlobalSymbol {
                        name: SymbolName::Plain(def.symbol_name.clone()),
                        ty: pointee.duplicate(),
                        linkage: l,
                        visibility: Visibility::Default,
                        thread_local: false,
                        tls_placement: None,
                        section: Section::Default,
                        read_only: false,
                        init: Initializer::Declared,
                    },
                );
                let g2 = self.push_symbol(
                    GlobalSymbol {
                        name: SymbolName::WithLinkage(def.symbol_name.clone()),
                        ty: def.ty.duplicate(),
                        linkage: SymbolLinkage::Internal,
                        visibility: Visibility::Default,
                        thread_local: false,
                        tls_placement: None,
                        section: Section::Default,
                        read_only: false,
                        init: Initializer::AddressOf(g1),
                    },
                );
                proof {
                    lemma_grows_trans(&cx0, &cx0, self);
                }
                g2
            },
            None => self.declare_global(&def.symbol_name, &def.ty),
        };
        if def.thread_local {
            self.mark_thread_local(s);
        }
        Ok(s)
    }

    /// The global for static `def`: the one already bound to it, else the
    /// result of defining it (this unit), importing it (another unit) or
    /// declaring it (foreign). The global is then bound to the definition.
    pub fn get_static(&mut self, def: &StaticDef) -> (r: Result<usize, StaticError>)
        requires
            old(self).wf(),
        ensures
            final(self).wf(),
            resolved(old(self), def.def_id, r, final(self)),
            old(self).has_instance(def.def_id) ==> unchanged(old(self), final(self)),
            !old(self).has_instance(def.def_id) ==> match def.origin {
                DefOrigin::Local => local_outcome(old(self), def, r, final(self)),
                DefOrigin::OtherUnit => import_outcome(old(self), def, r, final(self)),
                DefOrigin::Foreign => linkage_outcome(old(self), def, r, final(self)),
            },
    {
        if let Some(s) = self.lookup_instance(def.def_id) {
            proof {
                assert forall|s2: nat| #[trigger] self.instance_of(def.def_id, s2) implies s2 == s by {
                    let q1 = choose|q: int|
                        0 <= q < self.instances@.len() && #[trigger] self.instances@[q].def_id
                            == def.def_id && self.instances@[q].symbol == s;
                    let q2 = choose|q: int|
                        0 <= q < self.instances@.len() && #[trigger] self.instances@[q].def_id
                            == def.def_id && self.instances@[q].symbol == s2;
                    if q1 < q2 {
                        assert(self.instances@[q1].def_id != self.instances@[q2].def_id);
                    } else if q2 < q1 {
                        assert(self.instances@[q2].def_id != self.instances@[q1].def_id);
                    }
                }
                lemma_grows_trans(self, self, self);
            }
            return Ok(s);
        }
        let r = match def.origin {
            DefOrigin::Local => {
                return self.codegen_static(def);
            },
            DefOrigin::OtherUnit if def.linkage.is_some() => {
                match self.check_and_apply_linkage(def) {
                    Ok(s) => s,
                    Err(e) => return Err(e),
                }
            },
            DefOrigin::OtherUnit => {
                let ghost cx0 = *self;
                let found = self.find_symbol(&def.symbol_name);
                if let Some(i) = found {
                    proof {
                        lemma_latest_unique(self, def.symbol_name@, i as int, choose|j: int| latest_plain(self, def.symbol_name@, j));
                    }
                    if !self.symbols[i].ty.same_as(&def.ty) {
                        return Err(StaticError::ConflictingTypes);
                    }
                }
                let s = self.declare_global(&def.symbol_name, &def.ty);
                proof {
                    if let Some(i) = found {
                        lemma_latest_unique(&cx0, def.symbol_name@, i as int, s as int);
                    }
                }
                if !def.reachable {
                    let ghost cx1 = *self;
                    self.symbols[s].visibility = Visibility::Hidden;
                    proof {
                        lemma_named_edits(&cx1, self);
                        lemma_grows_trans(&cx0, &cx1, self);
                    }
                }
                if def.thread_local {
                    let ghost cx2 = *self;
                    self.mark_thread_local(s);
                    proof {
                        lemma_grows_trans(&cx0, &cx2, self);
                    }
                }
                s
            },
            DefOrigin::Foreign => {
                match self.check_and_apply_linkage(def) {
                    Ok(s) => s,
                    Err(e) => return Err(e),
                }
            },
        };
        let ghost cx3 = *self;
        self.bind_instance(def.def_id, r);
        proof {
            lemma_grows_trans(old(self), &cx3, self);
        }
        Ok(r)
    }
}

} // verus!

verus! {

/// Resolving a definition again, in the unit the first successful resolution
/// left, returns the same global (also where the first one defined a
/// replacement global of another type).
pub proof fn lemma_resolve_idempotent(
    cx0: &CodegenCx,
    d: u64,
    r1: Result<usize, StaticError>,
    cx1: &CodegenCx,
    r2: Result<usize, StaticError>,
    cx2: &CodegenCx,
)
    requires
        resolved(cx0, d, r1, cx1),
        resolved(cx1, d, r2, cx2),
        r1 is Ok,
    ensures
        r2 == r1,
{
    assert(cx1.instance_of(d, r1->Ok_0 as nat));
}

} // verus!

verus! {

/// The constant that initializes static `def`, and the allocation it
/// comes from.
pub fn codegen_static_initializer(cx: &mut CodegenCx, def: &StaticDef) -> (r: Result<
    (crate::constant::BackendConstant, usize),
    StaticError,
>)
    requires
        old(cx).wf(),
    ensures
        final(cx).wf(),
        keeps_bindings(old(cx), final(cx)),
        match def.initializer {
            None => r == Err::<(crate::constant::BackendConstant, usize), StaticError>(
                StaticError::EvalFailed,
            ),
            Some(a) => if a >= old(cx).allocs@.len() {
                r == Err::<(crate::constant::BackendConstant, usize), StaticError>(
                    StaticError::UnknownAllocation,
                )
            } else if cyclic_from(old(cx).allocs@, a as int) {
                r == Err::<(crate::constant::BackendConstant, usize), StaticError>(
                    StaticError::CyclicReference,
                )
            } else {
                &&& r is Ok
                &&& r->Ok_0.1 == a
                &&& r->Ok_0.0@ == materialized(
                    final(cx).allocs@[a as int],
                    final(cx).target,
                    final(cx).memo_map(),
                )
            },
        },
{
    let a = match def.initializer {
        None => return Err(StaticError::EvalFailed),
        Some(a) => a,
    };
    if a >= cx.allocs.len() {
        return Err(StaticError::UnknownAllocation);
    }
    match const_alloc_to_gcc(cx, a) {
        Ok(c) => Ok((c, a)),
        Err(_) => Err(StaticError::CyclicReference),
    }
}

} // verus!
