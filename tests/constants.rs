use gcc_consts::allocation::{read_target_uint, Allocation, Endian, Relocation};
use gcc_consts::constant::{BackendConstant, FieldKind, Fragment, TargetInfo};
use gcc_consts::consts::{const_alloc_to_gcc, CodegenCx, ConstError, Initializer, PlatformConfig, SymbolName};

fn target() -> TargetInfo {
    TargetInfo { pointer_size: 8, endian: Endian::Little }
}

fn config() -> PlatformConfig {
    PlatformConfig { fixed_tls_sections: false, custom_section_metadata: false, fewer_names: false }
}

fn allocation(bytes: Vec<u8>, relocs: Vec<(usize, usize)>) -> Allocation {
    Allocation::new(
        bytes,
        relocs.into_iter().map(|(offset, target)| Relocation { offset, target }).collect(),
    )
}

fn bytes_of(f: &Fragment) -> Option<Vec<u8>> {
    match f {
        Fragment::Bytes(b) => Some(b.clone()),
        Fragment::Pointer { .. } => None,
    }
}

fn pointer_of(f: &Fragment) -> Option<(usize, u64)> {
    match f {
        Fragment::Bytes(_) => None,
        Fragment::Pointer { symbol, offset } => Some((*symbol, *offset)),
    }
}

fn total_len(c: &BackendConstant, ps: usize) -> usize {
    c.fragments
        .iter()
        .map(|f| match f {
            Fragment::Bytes(b) => b.len(),
            Fragment::Pointer { .. } => ps,
        })
        .sum()
}

#[test]
fn reads_little_and_big_endian_offsets() {
    let bytes = vec![0x01, 0x02, 0x03, 0x04, 0x05];
    assert_eq!(read_target_uint(Endian::Little, &bytes, 1, 4), 0x0504_0302);
    assert_eq!(read_target_uint(Endian::Big, &bytes, 1, 4), 0x0203_0405);
    assert_eq!(read_target_uint(Endian::Little, &bytes, 0, 0), 0);
    let max = vec![0xff; 8];
    assert_eq!(read_target_uint(Endian::Big, &max, 0, 8), u64::MAX);
}

#[test]
fn no_relocations_round_trip() {
    let buf = vec![7, 0, 9, 255, 1];
    let mut cx = CodegenCx::new(target(), config(), vec![allocation(buf.clone(), vec![])]).unwrap();
    let c = const_alloc_to_gcc(&mut cx, 0).unwrap();
    assert_eq!(c.fragments.len(), 1);
    assert_eq!(bytes_of(&c.fragments[0]), Some(buf));
    assert!(cx.symbols.is_empty());
}

#[test]
fn empty_allocation_has_no_fragments() {
    let mut cx = CodegenCx::new(target(), config(), vec![allocation(vec![], vec![])]).unwrap();
    let c = const_alloc_to_gcc(&mut cx, 0).unwrap();
    assert!(c.fragments.is_empty());
}

#[test]
fn fragments_cover_allocation_exactly() {
    // 3 bytes, a pointer at 3 (offset 5 into allocation 1), a pointer at 11
    // right after it (offset 0), then 2 trailing bytes.
    let mut bytes = vec![0xaa, 0xbb, 0xcc];
    bytes.extend_from_slice(&5u64.to_le_bytes());
    bytes.extend_from_slice(&0u64.to_le_bytes());
    bytes.extend_from_slice(&[0xdd, 0xee]);
    let a0 = allocation(bytes.clone(), vec![(3, 1), (11, 1)]);
    let a1 = allocation(vec![1, 2, 3, 4, 5, 6], vec![]);
    let mut cx = CodegenCx::new(target(), config(), vec![a0, a1]).unwrap();
    let c = const_alloc_to_gcc(&mut cx, 0).unwrap();
    assert_eq!(total_len(&c, 8), bytes.len());
    assert_eq!(c.fragments.len(), 4);
    assert_eq!(bytes_of(&c.fragments[0]), Some(vec![0xaa, 0xbb, 0xcc]));
    let sym = cx.alloc_symbols[1].unwrap();
    assert_eq!(pointer_of(&c.fragments[1]), Some((sym, 5)));
    assert_eq!(pointer_of(&c.fragments[2]), Some((sym, 0)));
    assert_eq!(bytes_of(&c.fragments[3]), Some(vec![0xdd, 0xee]));
    // The target was materialized into a private read-only global.
    assert_eq!(cx.symbols.len(), 1);
    assert!(cx.symbols[sym].read_only);
    assert!(matches!(cx.symbols[sym].name, SymbolName::Private));
    match &cx.symbols[sym].init {
        Initializer::Constant(k) => assert_eq!(bytes_of(&k.fragments[0]), Some(vec![1, 2, 3, 4, 5, 6])),
        _ => panic!("target global is not initialized"),
    }
}

#[test]
fn big_endian_pointer_offsets() {
    let t = TargetInfo { pointer_size: 4, endian: Endian::Big };
    let a0 = allocation(vec![0, 0, 1, 2], vec![(0, 1)]);
    let a1 = allocation(vec![9; 300], vec![]);
    let mut cx = CodegenCx::new(t, config(), vec![a0, a1]).unwrap();
    let c = const_alloc_to_gcc(&mut cx, 0).unwrap();
    assert_eq!(c.fragments.len(), 1);
    assert_eq!(pointer_of(&c.fragments[0]).map(|p| p.1), Some(258));
}

#[test]
fn cyclic_relocations_are_fatal() {
    let a0 = allocation(vec![0; 8], vec![(0, 1)]);
    let a1 = allocation(vec![0; 16], vec![(8, 0)]);
    let mut cx = CodegenCx::new(target(), config(), vec![a0, a1]).unwrap();
    assert_eq!(const_alloc_to_gcc(&mut cx, 0).unwrap_err(), ConstError::CyclicReference);
    assert_eq!(const_alloc_to_gcc(&mut cx, 1).unwrap_err(), ConstError::CyclicReference);
}

#[test]
fn self_relocation_is_fatal() {
    let a0 = allocation(vec![0; 8], vec![(0, 0)]);
    let mut cx = CodegenCx::new(target(), config(), vec![a0]).unwrap();
    assert_eq!(const_alloc_to_gcc(&mut cx, 0).unwrap_err(), ConstError::CyclicReference);
}

#[test]
fn reaching_a_cycle_is_fatal() {
    let a0 = allocation(vec![0; 8], vec![(0, 1)]);
    let a1 = allocation(vec![0; 8], vec![(0, 2)]);
    let a2 = allocation(vec![0; 8], vec![(0, 1)]);
    let mut cx = CodegenCx::new(target(), config(), vec![a0, a1, a2]).unwrap();
    assert_eq!(const_alloc_to_gcc(&mut cx, 0).unwrap_err(), ConstError::CyclicReference);
}

#[test]
fn shared_target_is_materialized_once() {
    let a0 = allocation(vec![0; 16], vec![(0, 2), (8, 2)]);
    let a1 = allocation(vec![0; 8], vec![(0, 2)]);
    let a2 = allocation(vec![4, 4], vec![]);
    let mut cx = CodegenCx::new(target(), config(), vec![a0, a1, a2]).unwrap();
    let c0 = const_alloc_to_gcc(&mut cx, 0).unwrap();
    let c1 = const_alloc_to_gcc(&mut cx, 1).unwrap();
    assert_eq!(cx.symbols.len(), 1);
    assert_eq!(pointer_of(&c0.fragments[0]), pointer_of(&c1.fragments[0]));
}

#[test]
fn malformed_allocations_are_rejected() {
    let overlapping = allocation(vec![0; 16], vec![(0, 0), (4, 0)]);
    assert_eq!(
        CodegenCx::new(target(), config(), vec![overlapping]).err(),
        Some(ConstError::MalformedAllocation(0))
    );
    let out_of_bounds = allocation(vec![0; 12], vec![(8, 0)]);
    assert_eq!(
        CodegenCx::new(target(), config(), vec![allocation(vec![1], vec![]), out_of_bounds]).err(),
        Some(ConstError::MalformedAllocation(1))
    );
    let unknown_target = allocation(vec![0; 8], vec![(0, 3)]);
    assert_eq!(
        CodegenCx::new(target(), config(), vec![unknown_target]).err(),
        Some(ConstError::MalformedAllocation(0))
    );
    let unordered = allocation(vec![0; 24], vec![(16, 0), (0, 0)]);
    assert_eq!(
        CodegenCx::new(target(), config(), vec![unordered]).err(),
        Some(ConstError::MalformedAllocation(0))
    );
}

fn bytes_constant(b: Vec<u8>) -> BackendConstant {
    BackendConstant { fragments: vec![Fragment::Bytes(b)] }
}

#[test]
fn intern_is_idempotent_and_injective() {
    let mut cx = CodegenCx::new(target(), config(), vec![]).unwrap();
    let s1 = cx.static_addr_of(bytes_constant(vec![1, 2, 3]), None);
    let s2 = cx.static_addr_of(bytes_constant(vec![1, 2, 3]), None);
    assert_eq!(s1, s2);
    let s3 = cx.static_addr_of(bytes_constant(vec![1, 2, 4]), None);
    assert_ne!(s1, s3);
    let s4 = cx.static_addr_of(
        BackendConstant { fragments: vec![Fragment::Pointer { symbol: s1, offset: 0 }] },
        None,
    );
    assert_ne!(s4, s1);
    assert_ne!(s4, s3);
    assert_eq!(cx.symbols.len(), 3);
    assert_eq!(cx.const_globals.len(), 3);
    assert!(cx.symbols.iter().all(|s| s.read_only));
}

#[test]
fn named_constant_globals() {
    let mut cx = CodegenCx::new(target(), config(), vec![]).unwrap();
    let s = cx.static_addr_of(bytes_constant(vec![5]), Some("str".to_string()));
    match &cx.symbols[s].name {
        SymbolName::Local { prefix, index } => {
            assert_eq!(prefix, "str");
            assert_eq!(*index, s as u64);
        }
        _ => panic!("expected a generated local name"),
    }
    let fewer = PlatformConfig { fewer_names: true, ..config() };
    let mut cx = CodegenCx::new(target(), fewer, vec![]).unwrap();
    let s = cx.static_addr_of(bytes_constant(vec![5]), Some("str".to_string()));
    assert!(matches!(cx.symbols[s].name, SymbolName::Private));
}

#[test]
fn mutable_constant_global_is_not_cached() {
    let mut cx = CodegenCx::new(target(), config(), vec![]).unwrap();
    let s1 = cx.static_addr_of_mut(bytes_constant(vec![1]), None);
    let s2 = cx.static_addr_of_mut(bytes_constant(vec![1]), None);
    assert_ne!(s1, s2);
    assert!(!cx.symbols[s1].read_only);
    assert!(cx.const_globals.is_empty());
    assert_eq!(cx.symbols[s1].ty.fields, vec![FieldKind::Bytes(1)]);
}

#[test]
fn constant_type_follows_fragments() {
    let c = BackendConstant {
        fragments: vec![Fragment::Bytes(vec![0, 0]), Fragment::Pointer { symbol: 0, offset: 3 }],
    };
    assert_eq!(c.val_ty().fields, vec![FieldKind::Bytes(2), FieldKind::Pointer]);
    assert!(c.same_as(&c.duplicate()));
    assert!(!c.same_as(&bytes_constant(vec![0, 0])));
}
