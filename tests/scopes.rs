use gcc_consts::allocator::{shim_output, shim_params, usize_bits, AllocatorTy, ShimTy};
use gcc_consts::debuginfo::{
    compute_mir_scopes, create_function_debug_context, lookup_debug_loc, DebugInfoLevel,
    LineLookup, ScopeBody, ScopeData, UNKNOWN_COLUMN_NUMBER, UNKNOWN_LINE_NUMBER,
};

fn scope(parent: Option<usize>, inlined: Option<LineLookup>, start: u32) -> ScopeData {
    ScopeData { parent, inlined, file_start: start, file_end: start + 100 }
}

fn found(name: &str, line: usize, line_start: u32, pos: u32) -> LineLookup {
    LineLookup::Found { file_name: Some(name.to_string()), line, line_start, pos }
}

#[test]
fn debug_loc_is_one_based() {
    let loc = lookup_debug_loc(&found("a.rs", 4, 120, 127), false);
    assert_eq!(loc.file_name.as_deref(), Some("a.rs"));
    assert_eq!(loc.line, 5);
    assert_eq!(loc.col, 8);
    let msvc = lookup_debug_loc(&found("a.rs", 4, 120, 127), true);
    assert_eq!(msvc.line, 5);
    assert_eq!(msvc.col, UNKNOWN_COLUMN_NUMBER);
    let none = lookup_debug_loc(&LineLookup::NotFound { file_name: None }, false);
    assert_eq!(none.file_name, None);
    assert_eq!(none.line, UNKNOWN_LINE_NUMBER);
    assert_eq!(none.col, UNKNOWN_COLUMN_NUMBER);
}

#[test]
fn scope_without_variables_is_elided() {
    let body = ScopeBody {
        scopes: vec![scope(None, None, 1000), scope(Some(0), None, 2000), scope(Some(1), None, 3000)],
        var_scopes: vec![2],
        file_start: 10,
        file_end: 20,
    };
    let ctx = compute_mir_scopes(&body, true, false);
    assert_eq!(ctx.scopes.len(), 3);
    assert_eq!(ctx.scopes[0].dbg_scope, 0);
    assert_eq!(ctx.scopes[0].file_start_pos, 10);
    assert_eq!(ctx.scopes[0].file_end_pos, 20);
    assert_eq!(ctx.scopes[1], ctx.scopes[0]);
    assert_eq!(ctx.scopes[2].dbg_scope, 2);
    assert_eq!(ctx.scopes[2].parent_scope, Some(0));
    assert_eq!(ctx.scopes[2].file_start_pos, 3000);
    assert_eq!(ctx.scopes[2].inlined_at, None);
    assert!(ctx.inline_sites.is_empty());
}

#[test]
fn limited_debuginfo_elides_nothing() {
    let body = ScopeBody {
        scopes: vec![scope(None, None, 0), scope(Some(0), None, 500)],
        var_scopes: vec![],
        file_start: 0,
        file_end: 900,
    };
    let ctx = compute_mir_scopes(&body, false, false);
    assert_eq!(ctx.scopes[1].dbg_scope, 1);
    assert_eq!(ctx.scopes[1].parent_scope, Some(0));
    assert!(create_function_debug_context(DebugInfoLevel::Off, &body, false).is_none());
    let full = create_function_debug_context(DebugInfoLevel::Full, &body, false).unwrap();
    assert_eq!(full.scopes[1], full.scopes[0]);
}

#[test]
fn inlining_chain_falls_through_elided_caller() {
    // 0: root; 1: inlined call; 2: no variables, elided; 3: inlined inside 2.
    let body = ScopeBody {
        scopes: vec![
            scope(None, None, 0),
            scope(Some(0), Some(found("f.rs", 9, 0, 4)), 100),
            scope(Some(1), None, 200),
            scope(Some(2), Some(found("g.rs", 1, 10, 12)), 300),
        ],
        var_scopes: vec![],
        file_start: 0,
        file_end: 1000,
    };
    let ctx = compute_mir_scopes(&body, true, false);
    assert_eq!(ctx.scopes[2], ctx.scopes[1]);
    assert_eq!(ctx.scopes[3].parent_scope, Some(1));
    let head = ctx.scopes[3].inlined_at.unwrap();
    let site = &ctx.inline_sites[head];
    assert_eq!(site.callsite.file_name.as_deref(), Some("g.rs"));
    assert_eq!((site.callsite.line, site.callsite.col), (2, 3));
    let caller = site.caller.unwrap();
    assert_eq!(Some(caller), ctx.scopes[1].inlined_at);
    let outer = &ctx.inline_sites[caller];
    assert_eq!(outer.callsite.file_name.as_deref(), Some("f.rs"));
    assert_eq!((outer.callsite.line, outer.callsite.col), (10, 5));
    assert_eq!(outer.caller, None);
}

#[test]
fn allocator_shim_signatures() {
    let p = shim_params(&vec![AllocatorTy::Layout, AllocatorTy::Ptr, AllocatorTy::Usize]).unwrap();
    assert_eq!(p, vec![ShimTy::Usize, ShimTy::Usize, ShimTy::BytePtr, ShimTy::Usize]);
    assert!(shim_params(&vec![AllocatorTy::Ptr, AllocatorTy::Unit]).is_none());
    assert_eq!(shim_output(AllocatorTy::ResultPtr), Ok(Some(ShimTy::BytePtr)));
    assert_eq!(shim_output(AllocatorTy::Unit), Ok(None));
    assert!(shim_output(AllocatorTy::Layout).is_err());
    assert_eq!(usize_bits(32), Some(32));
    assert_eq!(usize_bits(128), None);
}

#[test]
fn parents_may_follow_their_children() {
    // 2 is the root, 0's parent is 2 and declares no variable, 1's parent is 0.
    let body = ScopeBody {
        scopes: vec![scope(Some(2), None, 100), scope(Some(0), None, 200), scope(None, None, 0)],
        var_scopes: vec![1],
        file_start: 5,
        file_end: 50,
    };
    let ctx = compute_mir_scopes(&body, true, false);
    assert_eq!(ctx.scopes[2].dbg_scope, 2);
    assert_eq!(ctx.scopes[2].file_start_pos, 5);
    assert_eq!(ctx.scopes[0], ctx.scopes[2]);
    assert_eq!(ctx.scopes[1].dbg_scope, 1);
    assert_eq!(ctx.scopes[1].parent_scope, Some(2));
    assert_eq!(ctx.scopes[1].file_start_pos, 200);
}
