use gcc_consts::allocation::{Allocation, Endian, Relocation};
use gcc_consts::constant::{BackendType, FieldKind, TargetInfo};
use gcc_consts::consts::{
    CodegenCx, Initializer, PlatformConfig, Section, SymbolLinkage, SymbolName, TlsPlacement,
    Visibility,
};
use gcc_consts::statics::{codegen_static_initializer, DefOrigin, StaticDef, StaticError};

fn target() -> TargetInfo {
    TargetInfo { pointer_size: 8, endian: Endian::Little }
}

fn config() -> PlatformConfig {
    PlatformConfig { fixed_tls_sections: false, custom_section_metadata: false, fewer_names: false }
}

fn bytes_ty(n: usize) -> BackendType {
    BackendType::new(vec![FieldKind::Bytes(n)])
}

fn def(def_id: u64, name: &str, origin: DefOrigin, ty: BackendType, initializer: Option<usize>) -> StaticDef {
    StaticDef {
        def_id,
        symbol_name: name.to_string(),
        origin,
        ty,
        pointee: None,
        linkage: None,
        is_mutable: false,
        is_freeze: true,
        thread_local: false,
        link_section: None,
        reachable: true,
        initializer,
    }
}

fn plain_name(s: &SymbolName) -> Option<&str> {
    match s {
        SymbolName::Plain(n) => Some(n.as_str()),
        _ => None,
    }
}

#[test]
fn local_static_is_defined_read_only() {
    let allocs = vec![Allocation::new(vec![1, 2, 3, 4], vec![])];
    let mut cx = CodegenCx::new(target(), config(), allocs).unwrap();
    let d = def(7, "FOO", DefOrigin::Local, bytes_ty(4), Some(0));
    let s = cx.get_static(&d).unwrap();
    let sym = &cx.symbols[s];
    assert_eq!(plain_name(&sym.name), Some("FOO"));
    assert!(sym.read_only);
    assert!(!sym.thread_local);
    assert!(sym.tls_placement.is_none());
    assert!(matches!(sym.section, Section::Default));
    assert_eq!(sym.ty.fields, vec![FieldKind::Bytes(4)]);
    assert!(matches!(sym.init, Initializer::Constant(_)));
    assert!(cx.redirects.is_empty());
}

#[test]
fn mutable_or_interior_mutable_static_stays_writable() {
    let allocs = vec![Allocation::new(vec![1], vec![]), Allocation::new(vec![2], vec![])];
    let mut cx = CodegenCx::new(target(), config(), allocs).unwrap();
    let mut d = def(1, "A", DefOrigin::Local, bytes_ty(1), Some(0));
    d.is_mutable = true;
    let s = cx.get_static(&d).unwrap();
    assert!(!cx.symbols[s].read_only);
    let mut e = def(2, "B", DefOrigin::Local, bytes_ty(1), Some(1));
    e.is_freeze = false;
    let s = cx.get_static(&e).unwrap();
    assert!(!cx.symbols[s].read_only);
}

#[test]
fn resolve_is_idempotent_across_type_redirect() {
    let allocs = vec![
        Allocation::new(vec![0; 8], vec![Relocation { offset: 0, target: 1 }]),
        Allocation::new(vec![5, 5], vec![]),
    ];
    let mut cx = CodegenCx::new(target(), config(), allocs).unwrap();
    // Declared as eight plain bytes, initialized with a pointer.
    let d = def(3, "PTR", DefOrigin::Local, bytes_ty(8), Some(0));
    let s1 = cx.get_static(&d).unwrap();
    assert_eq!(cx.redirects.len(), 1);
    assert_eq!(cx.redirects[0].to, s1);
    let from = cx.redirects[0].from;
    assert_ne!(from, s1);
    assert_eq!(plain_name(&cx.symbols[from].name), Some("PTR"));
    assert_eq!(cx.symbols[from].ty.fields, vec![FieldKind::Bytes(8)]);
    assert_eq!(cx.symbols[s1].ty.fields, vec![FieldKind::Pointer]);
    let n = cx.symbols.len();
    let s2 = cx.get_static(&d).unwrap();
    assert_eq!(s1, s2);
    assert_eq!(cx.symbols.len(), n);
    assert_eq!(cx.redirects.len(), 1);
}

#[test]
fn thread_local_zero_allocation_is_zero_filled() {
    let allocs = vec![Allocation::new(vec![0; 16], vec![])];
    let mut cx = CodegenCx::new(target(), config(), allocs).unwrap();
    let mut d = def(1, "TLS", DefOrigin::Local, bytes_ty(16), Some(0));
    d.thread_local = true;
    let s = cx.get_static(&d).unwrap();
    assert!(cx.symbols[s].thread_local);
    assert_eq!(cx.symbols[s].tls_placement, Some(TlsPlacement::ZeroFill));
}

#[test]
fn thread_local_nonzero_allocation_is_initialized_data() {
    let mut bytes = vec![0; 16];
    bytes[9] = 1;
    let allocs = vec![Allocation::new(bytes, vec![])];
    let mut cx = CodegenCx::new(target(), config(), allocs).unwrap();
    let mut d = def(1, "TLS", DefOrigin::Local, bytes_ty(16), Some(0));
    d.thread_local = true;
    let s = cx.get_static(&d).unwrap();
    assert_eq!(cx.symbols[s].tls_placement, Some(TlsPlacement::InitializedData));
}

#[test]
fn fixed_thread_local_sections_on_affected_platforms() {
    let allocs = vec![Allocation::new(vec![0; 16], vec![]), Allocation::new(vec![3; 16], vec![])];
    let quirk = PlatformConfig { fixed_tls_sections: true, ..config() };
    let mut cx = CodegenCx::new(target(), quirk, allocs).unwrap();
    let mut d = def(1, "Z", DefOrigin::Local, bytes_ty(16), Some(0));
    d.thread_local = true;
    let s = cx.get_static(&d).unwrap();
    assert!(matches!(cx.symbols[s].section, Section::FixedThreadLocal(TlsPlacement::ZeroFill)));
    let mut e = def(2, "D", DefOrigin::Local, bytes_ty(16), Some(1));
    e.thread_local = true;
    let s = cx.get_static(&e).unwrap();
    assert!(matches!(
        cx.symbols[s].section,
        Section::FixedThreadLocal(TlsPlacement::InitializedData)
    ));
}

#[test]
fn custom_sections() {
    let allocs = vec![Allocation::new(vec![1], vec![]), Allocation::new(vec![1], vec![])];
    let mut cx = CodegenCx::new(target(), config(), allocs).unwrap();
    let mut d = def(1, "S", DefOrigin::Local, bytes_ty(1), Some(0));
    d.link_section = Some(".mine".to_string());
    let s = cx.get_static(&d).unwrap();
    assert!(matches!(&cx.symbols[s].section, Section::Named(n) if n == ".mine"));

    let allocs = vec![Allocation::new(vec![1], vec![])];
    let meta = PlatformConfig { custom_section_metadata: true, ..config() };
    let mut cx = CodegenCx::new(target(), meta, allocs).unwrap();
    let s = cx.get_static(&d).unwrap();
    assert!(matches!(&cx.symbols[s].section, Section::CustomMetadata(n) if n == ".mine"));
}

#[test]
fn failed_evaluation_binds_nothing() {
    let mut cx = CodegenCx::new(target(), config(), vec![]).unwrap();
    let d = def(1, "E", DefOrigin::Local, bytes_ty(1), None);
    assert_eq!(cx.get_static(&d), Err(StaticError::EvalFailed));
    assert!(cx.instances.is_empty());
    assert!(cx.symbols.is_empty());
    assert_eq!(cx.get_static(&d), Err(StaticError::EvalFailed));
    let u = def(2, "U", DefOrigin::Local, bytes_ty(1), Some(4));
    assert_eq!(cx.get_static(&u), Err(StaticError::UnknownAllocation));
}

#[test]
fn cyclic_initializer_binds_nothing() {
    let allocs = vec![
        Allocation::new(vec![0; 8], vec![Relocation { offset: 0, target: 1 }]),
        Allocation::new(vec![0; 8], vec![Relocation { offset: 0, target: 0 }]),
    ];
    let mut cx = CodegenCx::new(target(), config(), allocs).unwrap();
    let d = def(1, "C", DefOrigin::Local, bytes_ty(8), Some(0));
    assert_eq!(cx.get_static(&d), Err(StaticError::CyclicReference));
    assert!(cx.instances.is_empty());
}

#[test]
fn duplicate_definition_is_rejected() {
    let allocs = vec![Allocation::new(vec![1], vec![]), Allocation::new(vec![2], vec![])];
    let mut cx = CodegenCx::new(target(), config(), allocs).unwrap();
    cx.get_static(&def(1, "DUP", DefOrigin::Local, bytes_ty(1), Some(0))).unwrap();
    let again = def(2, "DUP", DefOrigin::Local, bytes_ty(1), Some(1));
    assert_eq!(cx.get_static(&again), Err(StaticError::AlreadyDefined));
}

#[test]
fn static_of_another_unit_is_declared() {
    let mut cx = CodegenCx::new(target(), config(), vec![]).unwrap();
    let mut d = def(4, "OTHER", DefOrigin::OtherUnit, bytes_ty(4), None);
    d.reachable = false;
    d.thread_local = true;
    let s = cx.get_static(&d).unwrap();
    let sym = &cx.symbols[s];
    assert_eq!(plain_name(&sym.name), Some("OTHER"));
    assert!(matches!(sym.init, Initializer::Declared));
    assert_eq!(sym.linkage, SymbolLinkage::External);
    assert_eq!(sym.visibility, Visibility::Hidden);
    assert!(sym.thread_local);
    assert_eq!(cx.get_static(&d), Ok(s));
    let conflicting = def(5, "OTHER", DefOrigin::OtherUnit, bytes_ty(8), None);
    assert_eq!(cx.get_static(&conflicting), Err(StaticError::ConflictingTypes));
    let same = def(6, "OTHER", DefOrigin::OtherUnit, bytes_ty(4), None);
    assert_eq!(cx.get_static(&same), Ok(s));
}

#[test]
fn foreign_static_without_linkage_is_declared() {
    let mut cx = CodegenCx::new(target(), config(), vec![]).unwrap();
    let d = def(9, "errno", DefOrigin::Foreign, bytes_ty(4), None);
    let s = cx.get_static(&d).unwrap();
    assert_eq!(cx.symbols.len(), 1);
    assert_eq!(plain_name(&cx.symbols[s].name), Some("errno"));
    assert!(matches!(cx.symbols[s].init, Initializer::Declared));
}

#[test]
fn weak_foreign_static_gets_indirection() {
    let mut cx = CodegenCx::new(target(), config(), vec![]).unwrap();
    let mut d = def(11, "maybe", DefOrigin::Foreign, BackendType::new(vec![FieldKind::Pointer]), None);
    d.linkage = Some(SymbolLinkage::Weak);
    d.pointee = Some(bytes_ty(4));
    let s = cx.get_static(&d).unwrap();
    assert_eq!(cx.symbols.len(), 2);
    let real = match cx.symbols[s].init {
        Initializer::AddressOf(g) => g,
        _ => panic!("indirection is not initialized with an address"),
    };
    assert_ne!(real, s);
    assert_eq!(plain_name(&cx.symbols[real].name), Some("maybe"));
    assert_eq!(cx.symbols[real].linkage, SymbolLinkage::Weak);
    assert_eq!(cx.symbols[real].ty.fields, vec![FieldKind::Bytes(4)]);
    assert!(matches!(cx.symbols[real].init, Initializer::Declared));
    assert!(matches!(&cx.symbols[s].name, SymbolName::WithLinkage(n) if n == "maybe"));
    assert_eq!(cx.symbols[s].linkage, SymbolLinkage::Internal);
    assert_eq!(cx.symbols[s].ty.fields, vec![FieldKind::Pointer]);
    assert_eq!(cx.get_static(&d), Ok(s));
    assert_eq!(cx.symbols.len(), 2);
}

#[test]
fn linkage_needs_pointer_type() {
    let mut cx = CodegenCx::new(target(), config(), vec![]).unwrap();
    let mut d = def(12, "notptr", DefOrigin::Foreign, bytes_ty(4), None);
    d.linkage = Some(SymbolLinkage::Weak);
    assert_eq!(cx.get_static(&d), Err(StaticError::LinkageNeedsPointer));
    assert!(cx.symbols.is_empty());
}

#[test]
fn indirection_defined_twice_is_rejected() {
    let mut cx = CodegenCx::new(target(), config(), vec![]).unwrap();
    let mut d = def(13, "w", DefOrigin::Foreign, BackendType::new(vec![FieldKind::Pointer]), None);
    d.linkage = Some(SymbolLinkage::Weak);
    d.pointee = Some(bytes_ty(1));
    cx.get_static(&d).unwrap();
    let mut e = def(14, "w", DefOrigin::Foreign, BackendType::new(vec![FieldKind::Pointer]), None);
    e.linkage = Some(SymbolLinkage::Weak);
    e.pointee = Some(bytes_ty(1));
    assert_eq!(cx.get_static(&e), Err(StaticError::AlreadyDefined));
}

#[test]
fn static_initializer_reports_its_allocation() {
    let allocs = vec![Allocation::new(vec![1, 2], vec![])];
    let mut cx = CodegenCx::new(target(), config(), allocs).unwrap();
    let d = def(1, "I", DefOrigin::Local, bytes_ty(2), Some(0));
    let (c, a) = codegen_static_initializer(&mut cx, &d).unwrap();
    assert_eq!(a, 0);
    assert_eq!(c.fragments.len(), 1);
}

#[test]
fn replaced_global_is_redirected() {
    let allocs = vec![
        Allocation::new(vec![0; 8], vec![Relocation { offset: 0, target: 1 }]),
        Allocation::new(vec![5, 5], vec![]),
    ];
    let mut cx = CodegenCx::new(target(), config(), allocs).unwrap();
    let d = def(3, "PTR", DefOrigin::Local, bytes_ty(8), Some(0));
    let s = cx.get_static(&d).unwrap();
    let from = cx.redirects[0].from;
    assert_eq!(cx.redirected(from), s);
    assert_eq!(cx.redirected(s), s);
}

#[test]
fn import_with_linkage_gets_indirection() {
    let mut cx = CodegenCx::new(target(), config(), vec![]).unwrap();
    let mut d = def(21, "imp", DefOrigin::OtherUnit, BackendType::new(vec![FieldKind::Pointer]), None);
    d.linkage = Some(SymbolLinkage::Weak);
    d.pointee = Some(bytes_ty(2));
    let s = cx.get_static(&d).unwrap();
    assert_eq!(cx.symbols.len(), 2);
    assert!(matches!(&cx.symbols[s].name, SymbolName::WithLinkage(n) if n == "imp"));
    assert!(matches!(cx.symbols[s].init, Initializer::AddressOf(0)));
}

#[test]
fn repeated_lookup_adds_nothing() {
    let allocs = vec![Allocation::new(vec![1, 2], vec![])];
    let mut cx = CodegenCx::new(target(), config(), allocs).unwrap();
    let d = def(1, "R", DefOrigin::Local, bytes_ty(2), Some(0));
    let s = cx.get_static(&d).unwrap();
    let (n, c, i) = (cx.symbols.len(), cx.const_globals.len(), cx.instances.len());
    assert_eq!(cx.get_static(&d), Ok(s));
    assert_eq!((cx.symbols.len(), cx.const_globals.len(), cx.instances.len()), (n, c, i));
}

#[test]
fn declared_global_receives_initializer_when_types_agree() {
    let allocs = vec![Allocation::new(vec![1, 2], vec![])];
    let mut cx = CodegenCx::new(target(), config(), allocs).unwrap();
    let other = def(1, "SHARED", DefOrigin::OtherUnit, bytes_ty(2), None);
    let g = cx.get_static(&other).unwrap();
    let local = def(2, "SHARED", DefOrigin::Local, bytes_ty(2), Some(0));
    assert_eq!(cx.get_static(&local), Ok(g));
    assert_eq!(cx.symbols.len(), 1);
    assert!(matches!(cx.symbols[g].init, Initializer::Constant(_)));
}
