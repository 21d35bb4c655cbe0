use vstd::prelude::*;

verus! {

/// Kinds of the arguments and results of the allocator entry points.
#[derive(Clone, Copy, Debug, PartialEq, Eq, Structural)]
pub enum AllocatorTy {
    Layout,
    Ptr,
    ResultPtr,
    Unit,
    Usize,
}

/// Backend types of a forwarding shim's parameters and result.
#[derive(Clone, Copy, Debug, PartialEq, Eq, Structural)]
pub enum ShimTy {
    /// The target's pointer-sized unsigned integer.
    Usize,
    /// A byte pointer.
    BytePtr,
}

/// Shim parameters for one argument kind: a layout is passed as size and
/// alignment; results and unit are no arguments.
pub open spec fn params_of(t: AllocatorTy) -> Option<Seq<ShimTy>> {
    match t {
        AllocatorTy::Layout => Some(seq![ShimTy::Usize, ShimTy::Usize]),
        AllocatorTy::Ptr => Some(seq![ShimTy::BytePtr]),
        AllocatorTy::Usize => Some(seq![ShimTy::Usize]),
        AllocatorTy::ResultPtr | AllocatorTy::Unit => None,
    }
}

/// Shim parameters of the argument kinds `ts[0..k]`, `None` where one of
/// them cannot be an argument.
pub open spec fn params_upto(ts: Seq<AllocatorTy>, k: int) -> Option<Seq<ShimTy>>
    decreases k,
{
    if k <= 0 {
        Some(seq![])
    } else {
        match (params_upto(ts, k - 1), params_of(ts[k - 1])) {
            (Some(a), Some(b)) => Some(a + b),
            _ => None,
        }
    }
}

/// The parameter types of the shim for an entry point with these argument
/// kinds; `None` when a kind cannot be an argument.
pub fn shim_params(inputs: &Vec<AllocatorTy>) -> (r: Option<Vec<ShimTy>>)
    ensures
        match params_upto(inputs@, inputs@.len() as int) {
            Some(p) => r matches Some(v) && v@ == p,
            None => r is None,
        },
{
    let mut types: Vec<ShimTy> = Vec::new();
    let mut i: usize = 0;
    while i < inputs.len()
        invariant
            i <= inputs@.len(),
            params_upto(inputs@, i as int) == Some(types@),
        decreases inputs@.len() - i,
    {
        match inputs[i] {
            AllocatorTy::Layout => {
                types.push(ShimTy::Usize);
                types.push(ShimTy::Usize);
            },
            AllocatorTy::Ptr => types.push(ShimTy::BytePtr),
            AllocatorTy::Usize => types.push(ShimTy::Usize),
            AllocatorTy::ResultPtr | AllocatorTy::Unit => {
                proof {
                    assert forall|k: int| i < k <= inputs@.len() implies params_upto(inputs@, k)
                        is None by {
                        lemma_params_fail(inputs@, i as int, k);
                    }
                }
                return None;
            },
        }
        proof {
            let ghost prev = params_upto(inputs@, i as int);
            assert(params_upto(inputs@, i + 1) == Some(prev->Some_0 + params_of(inputs@[i as int])->Some_0));
        }
        i = i + 1;
        assert(params_upto(inputs@, i as int) =~= Some(types@)) by {
            assert(params_upto(inputs@, i as int)->Some_0 =~= types@);
        }
    }
    Some(types)
}

proof fn lemma_params_fail(ts: Seq<AllocatorTy>, i: int, k: int)
    requires
        0 <= i < k,
        params_of(ts[i]) is None,
    ensures
        params_upto(ts, k) is None,
    decreases k,
{
    if k > i + 1 {
        lemma_params_fail(ts, i, k - 1);
    }
}

/// The result type of the shim: a byte pointer for a pointer result, none
/// for unit; `Err` for a kind that cannot be a result.
pub fn shim_output(output: AllocatorTy) -> (r: Result<Option<ShimTy>, ()>)
    ensures
        output == AllocatorTy::ResultPtr ==> r == Ok::<Option<ShimTy>, ()>(Some(ShimTy::BytePtr)),
        output == AllocatorTy::Unit ==> r == Ok::<Option<ShimTy>, ()>(None),
        output != AllocatorTy::ResultPtr && output != AllocatorTy::Unit ==> r is Err,
{
    match output {
        AllocatorTy::ResultPtr => Ok(Some(ShimTy::BytePtr)),
        AllocatorTy::Unit => Ok(None),
        _ => Err(()),
    }
}

/// Width in bits of the target's `usize`, when the pointer width is supported.
pub fn usize_bits(pointer_width: u32) -> (r: Option<u32>)
    ensures
        r is Some <==> (pointer_width == 16 || pointer_width == 32 || pointer_width == 64),
        r matches Some(b) ==> b == pointer_width,
{
    if pointer_width == 16 || pointer_width == 32 || pointer_width == 64 {
        Some(pointer_width)
    } else {
        None
    }
}

} // verus!
