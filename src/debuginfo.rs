use vstd::prelude::*;

verus! {

/// Line number reported where the source map knows no line.
pub const UNKNOWN_LINE_NUMBER: u32 = 0;

/// Column number reported where no column is known or wanted.
pub const UNKNOWN_COLUMN_NUMBER: u32 = 0;

/// What the source map answered for a byte position. The file name is
/// present when the file is a real local path that is valid UTF-8.
#[derive(Debug)]
pub enum LineLookup {
    /// The position lies on line `line` (0-based) of the file; `line_start`
    /// and `pos` are relative to the start of the file.
    Found { file_name: Option<String>, line: usize, line_start: u32, pos: u32 },
    /// The position lies in the file but on no known line.
    NotFound { file_name: Option<String> },
}

impl LineLookup {
    /// Line and column fit the backend's 32-bit numbers.
    pub open spec fn in_range(&self) -> bool {
        match self {
            LineLookup::Found { line, line_start, pos, .. } => *line < u32::MAX && *line_start
                <= *pos && *pos - *line_start < u32::MAX,
            LineLookup::NotFound { .. } => true,
        }
    }
}

/// A source location: file name, 1-based line and 1-based column.
#[derive(Debug)]
pub struct DebugLoc {
    pub file_name: Option<String>,
    pub line: u32,
    pub col: u32,
}

pub open spec fn name_view(n: Option<String>) -> Option<Seq<char>> {
    match n {
        Some(s) => Some(s@),
        None => None,
    }
}

impl View for DebugLoc {
    type V = (Option<Seq<char>>, u32, u32);

    open spec fn view(&self) -> (Option<Seq<char>>, u32, u32) {
        (name_view(self.file_name), self.line, self.col)
    }
}

/// The location of a looked-up position: 1-based line and column, the
/// column unknown on targets like MSVC, both unknown off any line.
pub open spec fn debug_loc_of(l: LineLookup, is_like_msvc: bool) -> (Option<Seq<char>>, u32, u32) {
    match l {
        LineLookup::Found { file_name, line, line_start, pos } => (
            name_view(file_name),
            (line + 1) as u32,
            if is_like_msvc {
                UNKNOWN_COLUMN_NUMBER
            } else {
                (pos - line_start + 1) as u32
            },
        ),
        LineLookup::NotFound { file_name } => (
            name_view(file_name),
            UNKNOWN_LINE_NUMBER,
            UNKNOWN_COLUMN_NUMBER,
        ),
    }
}

fn copy_name(n: &Option<String>) -> (r: Option<String>)
    ensures
        name_view(r) == name_view(*n),
{
    match n {
        Some(s) => Some(s.clone()),
        None => None,
    }
}

/// Line and column of a position the source map has looked up.
pub fn lookup_debug_loc(l: &LineLookup, is_like_msvc: bool) -> (r: DebugLoc)
    requires
        l.in_range(),
    ensures
        r@ == debug_loc_of(*l, is_like_msvc),
{
    match l {
        LineLookup::Found { file_name, line, line_start, pos } => {
            let line_no = (*line + 1) as u32;
            let col = if is_like_msvc {
                UNKNOWN_COLUMN_NUMBER
            } else {
                (*pos - *line_start) as u32 + 1
            };
            DebugLoc { file_name: copy_name(file_name), line: line_no, col }
        },
        LineLookup::NotFound { file_name } => DebugLoc {
            file_name: copy_name(file_name),
            line: UNKNOWN_LINE_NUMBER,
            col: UNKNOWN_COLUMN_NUMBER,
        },
    }
}

} // verus!

verus! {

/// A lexical scope of a function body.
#[derive(Debug)]
pub struct ScopeData {
    /// The enclosing scope; `None` for the function's own scope.
    pub parent: Option<usize>,
    /// For a scope inlined from another function: the call site, as the
    /// source map placed it.
    pub inlined: Option<LineLookup>,
    /// Byte range of the file that holds the scope's span.
    pub file_start: u32,
    pub file_end: u32,
}

/// The scopes of a function body and the scope of each variable.
#[derive(Debug)]
pub struct ScopeBody {
    pub scopes: Vec<ScopeData>,
    /// For each variable with debug information, the scope declaring it.
    pub var_scopes: Vec<usize>,
    /// Byte range of the file that holds the function's span.
    pub file_start: u32,
    pub file_end: u32,
}

impl ScopeBody {
    /// `depth` gives every scope a depth above its parent's: the parent
    /// links name existing scopes and form no cycle.
    pub open spec fn depth_ok(&self, depth: Seq<nat>) -> bool {
        &&& depth.len() == self.scopes@.len()
        &&& forall|i: int|
            0 <= i < self.scopes@.len() ==> (#[trigger] self.scopes@[i].parent matches Some(p) ==> p
                < self.scopes@.len() && depth[p as int] < depth[i])
    }

    /// The scopes form a forest, variables name existing scopes, and call
    /// sites have representable lines and columns.
    pub open spec fn wf(&self) -> bool {
        &&& exists|depth: Seq<nat>| self.depth_ok(depth)
        &&& forall|i: int|
            0 <= i < self.scopes@.len() ==> (#[trigger] self.scopes@[i].inlined matches Some(l)
                ==> l.in_range())
        &&& forall|v: int|
            0 <= v < self.var_scopes@.len() ==> #[trigger] self.var_scopes@[v] < self.scopes@.len()
    }

    /// A depth for each scope, above its parent's.
    pub open spec fn scope_depth(&self) -> Seq<nat> {
        choose|depth: Seq<nat>| self.depth_ok(depth)
    }

    /// Scope `i` has parent `p`, at a smaller depth.
    pub open spec fn parent_below(&self, i: int, p: int) -> bool {
        &&& self.scopes@[i].parent == Some(p as usize)
        &&& 0 <= p < self.scopes@.len()
        &&& self.scope_depth()[p] < self.scope_depth()[i]
    }

    /// Scope `j` is `i` or one of its ancestors.
    pub open spec fn is_ancestor(&self, i: int, j: int) -> bool
        decreases self.scope_depth()[i],
    {
        j == i || match self.scopes@[i].parent {
            Some(p) => self.parent_below(i, p as int) && self.is_ancestor(p as int, j),
            None => false,
        }
    }

    /// Scope `i` declares a variable directly.
    pub open spec fn has_vars(&self, i: int) -> bool {
        exists|v: int| 0 <= v < self.var_scopes@.len() && #[trigger] self.var_scopes@[v] == i
    }
}

/// The debug scope recorded for a source scope: the backend scope object
/// (named by the index of the source scope that created it), that object's
/// parent object, the head of its inlining chain and its file range.
#[derive(Clone, Copy, Debug, PartialEq, Eq, Structural)]
pub struct DebugScope {
    pub dbg_scope: usize,
    pub parent_scope: Option<usize>,
    pub inlined_at: Option<usize>,
    pub file_start_pos: u32,
    pub file_end_pos: u32,
}

/// A link of an inlining chain: a call site and the caller's own chain.
#[derive(Debug)]
pub struct InlineSite {
    pub callsite: DebugLoc,
    pub caller: Option<usize>,
}

/// The debug scopes of one function, one per source scope.
#[derive(Debug)]
pub struct FunctionDebugContext {
    pub scopes: Vec<DebugScope>,
    pub inline_sites: Vec<InlineSite>,
}

/// Mathematical model of the debug scope of a source scope.
pub struct ScopeModel {
    pub object: nat,
    pub parent: Option<nat>,
    pub file_start: u32,
    pub file_end: u32,
    /// Call sites from the innermost inlining outwards.
    pub chain: Seq<(Option<Seq<char>>, u32, u32)>,
}

/// Scope `i` gets no scope object of its own: full debug information is
/// wanted, it declares no variable, and it is not inlined.
pub open spec fn elided(body: &ScopeBody, full: bool, i: int) -> bool {
    full && !body.has_vars(i) && body.scopes@[i].inlined is None
}

/// The debug scope of source scope `i`: the function's own scope for a root;
/// the parent's debug scope for an elided scope; else a new object under the
/// parent's object, whose chain starts with its call site when inlined.
pub open spec fn scope_model(body: &ScopeBody, full: bool, msvc: bool, i: int) -> ScopeModel
    decreases body.scope_depth()[i],
{
    let d = body.scopes@[i];
    match d.parent {
        Some(p) if body.parent_below(i, p as int) => {
            let pm = scope_model(body, full, msvc, p as int);
            if elided(body, full, i) {
                pm
            } else {
                ScopeModel {
                    object: i as nat,
                    parent: Some(pm.object),
                    file_start: d.file_start,
                    file_end: d.file_end,
                    chain: match d.inlined {
                        Some(l) => seq![debug_loc_of(l, msvc)] + pm.chain,
                        None => pm.chain,
                    },
                }
            }
        },
        _ => ScopeModel {
            object: i as nat,
            parent: None,
            file_start: body.file_start,
            file_end: body.file_end,
            chain: seq![],
        },
    }
}

/// The call sites of the chain that starts at site `k` (none when `k < 0`).
pub open spec fn chain_from(sites: Seq<InlineSite>, k: int) -> Seq<(Option<Seq<char>>, u32, u32)>
    decreases k,
{
    if 0 <= k < sites.len() {
        seq![sites[k].callsite@] + match sites[k].caller {
            Some(c) if c < k => chain_from(sites, c as int),
            _ => seq![],
        }
    } else {
        seq![]
    }
}

pub open spec fn site_index(s: Option<usize>) -> int {
    match s {
        Some(k) => k as int,
        None => -1,
    }
}

pub open spec fn opt_nat(s: Option<usize>) -> Option<nat> {
    match s {
        Some(k) => Some(k as nat),
        None => None,
    }
}

/// Each site's caller comes before it.
pub open spec fn sites_wf(sites: Seq<InlineSite>) -> bool {
    forall|k: int| 0 <= k < sites.len() ==> (#[trigger] sites[k].caller matches Some(c) ==> c < k)
}

/// The recorded debug scope `e` matches model `m`.
pub open spec fn entry_ok(e: DebugScope, sites: Seq<InlineSite>, m: ScopeModel) -> bool {
    &&& e.dbg_scope == m.object
    &&& opt_nat(e.parent_scope) == m.parent
    &&& e.file_start_pos == m.file_start
    &&& e.file_end_pos == m.file_end
    &&& site_index(e.inlined_at) < sites.len()
    &&& chain_from(sites, site_index(e.inlined_at)) == m.chain
}

proof fn lemma_chain_push(sites: Seq<InlineSite>, x: InlineSite, k: int)
    requires
        sites_wf(sites),
        k < sites.len(),
    ensures
        chain_from(sites.push(x), k) == chain_from(sites, k),
    decreases k,
{
    if 0 <= k {
        if let Some(c) = sites[k].caller {
            lemma_chain_push(sites, x, c as int);
        }
    }
}

} // verus!

verus! {

/// The entries of the instantiated scopes match their models.
pub open spec fn instantiated_ok(
    body: &ScopeBody,
    full: bool,
    msvc: bool,
    inst: Seq<bool>,
    scopes: Seq<DebugScope>,
    sites: Seq<InlineSite>,
) -> bool {
    &&& inst.len() == body.scopes@.len()
    &&& scopes.len() == body.scopes@.len()
    &&& sites_wf(sites)
    &&& forall|j: int|
        0 <= j < inst.len() && #[trigger] inst[j] ==> (body.scopes@[j].parent matches Some(p)
            ==> inst[p as int])
    &&& forall|j: int|
        0 <= j < inst.len() && #[trigger] inst[j] ==> entry_ok(
            scopes[j],
            sites,
            scope_model(body, full, msvc, j),
        )
}

proof fn lemma_parent_below(body: &ScopeBody, i: int)
    requires
        body.wf(),
        0 <= i < body.scopes@.len(),
    ensures
        body.scopes@[i].parent matches Some(p) ==> body.parent_below(i, p as int),
{
    let d = body.scope_depth();
    assert(body.depth_ok(d));
    assert(body.scopes@[i].parent matches Some(p) ==> p < body.scopes@.len() && d[p as int] < d[i]);
}

proof fn lemma_ancestor_depth(body: &ScopeBody, i: int, j: int)
    requires
        body.is_ancestor(i, j),
    ensures
        body.scope_depth()[j] <= body.scope_depth()[i],
    decreases body.scope_depth()[i],
{
    if j != i {
        let p = body.scopes@[i].parent->Some_0 as int;
        lemma_ancestor_depth(body, p, j);
    }
}

proof fn lemma_ancestors_instantiated(
    body: &ScopeBody,
    full: bool,
    msvc: bool,
    inst: Seq<bool>,
    scopes: Seq<DebugScope>,
    sites: Seq<InlineSite>,
    i: int,
    j: int,
)
    requires
        instantiated_ok(body, full, msvc, inst, scopes, sites),
        0 <= i < inst.len(),
        inst[i],
        body.is_ancestor(i, j),
    ensures
        inst[j],
    decreases body.scope_depth()[i],
{
    if j != i {
        let p = body.scopes@[i].parent->Some_0 as int;
        lemma_ancestors_instantiated(body, full, msvc, inst, scopes, sites, p, j);
    }
}

proof fn lemma_sites_push(
    body: &ScopeBody,
    full: bool,
    msvc: bool,
    inst: Seq<bool>,
    scopes: Seq<DebugScope>,
    sites: Seq<InlineSite>,
    x: InlineSite,
)
    requires
        instantiated_ok(body, full, msvc, inst, scopes, sites),
        x.caller matches Some(c) ==> c < sites.len(),
    ensures
        instantiated_ok(body, full, msvc, inst, scopes, sites.push(x)),
{
    assert forall|j: int| 0 <= j < inst.len() && #[trigger] inst[j] implies entry_ok(
        scopes[j],
        sites.push(x),
        scope_model(body, full, msvc, j),
    ) by {
        lemma_chain_push(sites, x, site_index(scopes[j].inlined_at));
    }
    assert forall|k: int| 0 <= k < sites.push(x).len() implies (#[trigger] sites.push(
        x,
    )[k].caller matches Some(c) ==> c < k) by {
        if k < sites.len() {
            assert(sites.push(x)[k] == sites[k]);
        }
    }
}

fn make_mir_scope(
    body: &ScopeBody,
    full: bool,
    msvc: bool,
    vars: &Vec<bool>,
    scopes: &mut Vec<DebugScope>,
    sites: &mut Vec<InlineSite>,
    inst: &mut Vec<bool>,
    i: usize,
)
    requires
        body.wf(),
        i < body.scopes@.len(),
        vars@.len() == body.scopes@.len(),
        forall|j: int| 0 <= j < vars@.len() ==> (#[trigger] vars@[j] <==> body.has_vars(j)),
        instantiated_ok(body, full, msvc, old(inst)@, old(scopes)@, old(sites)@),
    ensures
        instantiated_ok(body, full, msvc, final(inst)@, final(scopes)@, final(sites)@),
        old(inst)@[i as int] ==> final(inst)@ == old(inst)@ && final(scopes)@ == old(scopes)@
            && final(sites)@ == old(sites)@,
        forall|j: int|
            0 <= j < old(inst)@.len() ==> (#[trigger] final(inst)@[j] <==> old(inst)@[j]
                || body.is_ancestor(i as int, j)),
        forall|j: int|
            0 <= j < old(inst)@.len() && old(inst)@[j] ==> #[trigger] final(scopes)@[j] == old(
                scopes,
            )@[j],
        old(sites)@.len() <= final(sites)@.len(),
        final(sites)@.take(old(sites)@.len() as int) == old(sites)@,
    decreases body.scope_depth()[i as int],
{
    if inst[i] {
        proof {
            assert forall|j: int|
                0 <= j < old(inst)@.len() && body.is_ancestor(i as int, j) implies old(inst)@[j] by {
                lemma_ancestors_instantiated(body, full, msvc, inst@, scopes@, sites@, i as int, j);
            }
            assert(sites@.take(sites@.len() as int) =~= sites@);
        }
        return;
    }
    proof {
        lemma_parent_below(body, i as int);
        reveal_with_fuel(ScopeBody::is_ancestor, 2);
    }
    let data = &body.scopes[i];
    let p = match data.parent {
        None => {
            scopes.set(
                i,
                DebugScope {
                    dbg_scope: i,
                    parent_scope: None,
                    inlined_at: None,
                    file_start_pos: body.file_start,
                    file_end_pos: body.file_end,
                },
            );
            inst.set(i, true);
            proof {
                reveal_with_fuel(chain_from, 1);
                assert(sites@.take(sites@.len() as int) =~= sites@);
            }
            return;
        },
        Some(p) => p,
    };
    let ghost inst0 = inst@;
    let ghost sites0 = sites@;
    make_mir_scope(body, full, msvc, vars, scopes, sites, inst, p);
    proof {
        assert(body.is_ancestor(p as int, p as int));
        assert(inst@[p as int]);
        assert(!inst@[i as int]) by {
            if body.is_ancestor(p as int, i as int) {
                lemma_ancestor_depth(body, p as int, i as int);
            }
        }
    }
    let pe = scopes[p];
    let ghost pm = scope_model(body, full, msvc, p as int);
    assert(entry_ok(pe, sites@, pm));
    if full && !vars[i] && data.inlined.is_none() {
        scopes.set(i, pe);
        inst.set(i, true);
        return;
    }
    let inlined_at = match &data.inlined {
        Some(l) => {
            let callsite = lookup_debug_loc(l, msvc);
            let ghost before = sites@;
            let site = InlineSite { callsite, caller: pe.inlined_at };
            proof {
                lemma_sites_push(body, full, msvc, inst@, scopes@, sites@, site);
            }
            sites.push(site);
            proof {
                lemma_chain_push(before, sites@[before.len() as int], site_index(pe.inlined_at));
                reveal_with_fuel(chain_from, 2);
            }
            Some(sites.len() - 1)
        },
        None => pe.inlined_at,
    };
    scopes.set(
        i,
        DebugScope {
            dbg_scope: i,
            parent_scope: Some(pe.dbg_scope),
            inlined_at,
            file_start_pos: data.file_start,
            file_end_pos: data.file_end,
        },
    );
    inst.set(i, true);
}

/// Builds the debug scope of every source scope of `body`, parents first and
/// each once; with full debug information, scopes without variables that are
/// not inlined share their parent's scope.
pub fn compute_mir_scopes(body: &ScopeBody, full_debuginfo: bool, is_like_msvc: bool) -> (r:
    FunctionDebugContext)
    requires
        body.wf(),
    ensures
        r.scopes@.len() == body.scopes@.len(),
        sites_wf(r.inline_sites@),
        forall|i: int|
            0 <= i < body.scopes@.len() ==> entry_ok(
                #[trigger] r.scopes@[i],
                r.inline_sites@,
                scope_model(body, full_debuginfo, is_like_msvc, i),
            ),
{
    let n = body.scopes.len();
    let mut vars: Vec<bool> = Vec::new();
    let mut inst: Vec<bool> = Vec::new();
    let mut scopes: Vec<DebugScope> = Vec::new();
    let mut i: usize = 0;
    while i < n
        invariant
            i <= n,
            vars@.len() == i,
            inst@.len() == i,
            scopes@.len() == i,
            forall|j: int| 0 <= j < i ==> !#[trigger] vars@[j],
            forall|j: int| 0 <= j < i ==> !#[trigger] inst@[j],
        decreases n - i,
    {
        vars.push(false);
        inst.push(false);
        scopes.push(
            DebugScope {
                dbg_scope: 0,
                parent_scope: None,
                inlined_at: None,
                file_start_pos: 0,
                file_end_pos: 0,
            },
        );
        i = i + 1;
    }
    let mut v: usize = 0;
    while v < body.var_scopes.len()
        invariant
            body.wf(),
            n == body.scopes@.len(),
            vars@.len() == n,
            inst@.len() == n,
            scopes@.len() == n,
            forall|j: int| 0 <= j < n ==> !#[trigger] inst@[j],
            v <= body.var_scopes@.len(),
            forall|j: int|
                0 <= j < n ==> (#[trigger] vars@[j] <==> exists|w: int|
                    0 <= w < v && #[trigger] body.var_scopes@[w] == j),
        decreases body.var_scopes@.len() - v,
    {
        let s = body.var_scopes[v];
        vars.set(s, true);
        proof {
            assert forall|j: int|
                0 <= j < n implies (#[trigger] vars@[j] <==> exists|w: int|
                0 <= w < v + 1 && #[trigger] body.var_scopes@[w] == j) by {
                if j == s {
                    assert(body.var_scopes@[v as int] == j);
                }
            }
        }
        v = v + 1;
    }
    let mut sites: Vec<InlineSite> = Vec::new();
    assert(forall|j: int| 0 <= j < vars@.len() ==> (#[trigger] vars@[j] <==> body.has_vars(j)));
    let mut k: usize = 0;
    while k < n
        invariant
            body.wf(),
            n == body.scopes@.len(),
            k <= n,
            vars@.len() == n,
            forall|j: int| 0 <= j < vars@.len() ==> (#[trigger] vars@[j] <==> body.has_vars(j)),
            instantiated_ok(body, full_debuginfo, is_like_msvc, inst@, scopes@, sites@),
            forall|j: int| 0 <= j < k ==> #[trigger] inst@[j],
        decreases n - k,
    {
        make_mir_scope(body, full_debuginfo, is_like_msvc, &vars, &mut scopes, &mut sites, &mut inst, k);
        k = k + 1;
    }
    proof {
        assert forall|i: int| 0 <= i < n implies entry_ok(
            #[trigger] scopes@[i],
            sites@,
            scope_model(body, full_debuginfo, is_like_msvc, i),
        ) by {
            assert(inst@[i]);
        }
    }
    FunctionDebugContext { scopes, inline_sites: sites }
}

/// How much debug information is wanted.
#[derive(Clone, Copy, Debug, PartialEq, Eq, Structural)]
pub enum DebugInfoLevel {
    Off,
    Limited,
    Full,
}

/// The debug context of a function: none when no debug information is
/// wanted, else its scopes.
pub fn create_function_debug_context(
    level: DebugInfoLevel,
    body: &ScopeBody,
    is_like_msvc: bool,
) -> (r: Option<FunctionDebugContext>)
    requires
        body.wf(),
    ensures
        r is None <==> level == DebugInfoLevel::Off,
        r matches Some(ctx) ==> {
            &&& ctx.scopes@.len() == body.scopes@.len()
            &&& sites_wf(ctx.inline_sites@)
            &&& forall|i: int|
                0 <= i < body.scopes@.len() ==> entry_ok(
                    #[trigger] ctx.scopes@[i],
                    ctx.inline_sites@,
                    scope_model(body, level == DebugInfoLevel::Full, is_like_msvc, i),
                )
        },
{
    match level {
        DebugInfoLevel::Off => None,
        DebugInfoLevel::Limited => Some(compute_mir_scopes(body, false, is_like_msvc)),
        DebugInfoLevel::Full => Some(compute_mir_scopes(body, true, is_like_msvc)),
    }
}

} // verus!
