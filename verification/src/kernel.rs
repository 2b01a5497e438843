//! Kernel descriptors: which unit of device code an operation asks for.

use crate::error::KernelError;
use vstd::prelude::*;

verus! {

/// The operation families of the engine.
#[derive(Clone, Copy, Debug, PartialEq, Eq, Structural)]
pub enum Family {
    Unary,
    Binary,
    Cast,
    Affine,
    IndexSelect,
    IndexAdd,
    Reduce,
    Softmax,
    WhereCond,
    Gemm,
}

/// The element types a kernel can be specialized for.
#[derive(Clone, Copy, Debug, PartialEq, Eq, Structural)]
pub enum DType {
    U8,
    U32,
    BF16,
    F16,
    F32,
}

impl DType {
    /// Whether the type is a floating-point type.
    pub open spec fn floating(self) -> bool {
        self is BF16 || self is F16 || self is F32
    }

    /// The size of one element in bytes.
    pub open spec fn bytes(self) -> nat {
        match self {
            DType::U8 => 1,
            DType::U32 => 4,
            DType::BF16 => 2,
            DType::F16 => 2,
            DType::F32 => 4,
        }
    }

    /// Whether the type is a floating-point type.
    pub fn is_float(self) -> (yes: bool)
        ensures
            yes == self.floating(),
    {
        match self {
            DType::U8 => false,
            DType::U32 => false,
            DType::BF16 => true,
            DType::F16 => true,
            DType::F32 => true,
        }
    }

    /// The size of one element in bytes.
    pub fn size_in_bytes(self) -> (size: usize)
        ensures
            size == self.bytes(),
    {
        match self {
            DType::U8 => 1,
            DType::U32 => 4,
            DType::BF16 => 2,
            DType::F16 => 2,
            DType::F32 => 4,
        }
    }
}

/// Whether a family has a kernel for an element type. The families whose
/// arithmetic is defined on real numbers only (unary math, affine, softmax
/// and matrix multiplication) have kernels for the floating-point types;
/// the others have one for every type.
pub open spec fn registered(family: Family, dtype: DType) -> bool {
    match family {
        Family::Unary | Family::Affine | Family::Softmax | Family::Gemm => dtype.floating(),
        _ => true,
    }
}

/// Identifies one unit of compiled device code: the family it belongs to,
/// the name of its function, and the element type it is specialized for.
#[derive(Debug)]
pub struct KernelDescriptor {
    pub family: Family,
    pub function: String,
    pub dtype: DType,
}

/// What a descriptor stands for: its three parts as plain values.
pub type DescriptorKey = (Family, Seq<char>, DType);

impl View for KernelDescriptor {
    type V = DescriptorKey;

    open spec fn view(&self) -> DescriptorKey {
        (self.family, self.function@, self.dtype)
    }
}

impl Clone for KernelDescriptor {
    fn clone(&self) -> (copy: Self)
        ensures
            copy@ == self@,
    {
        KernelDescriptor {
            family: self.family,
            function: self.function.clone(),
            dtype: self.dtype,
        }
    }
}

impl KernelDescriptor {
    /// Describes the kernel `function` of `family` for `dtype`, or reports
    /// that the family has no kernel for that type.
    pub fn new(family: Family, function: &str, dtype: DType) -> (result: Result<
        KernelDescriptor,
        KernelError,
    >)
        ensures
            match result {
                Ok(d) => registered(family, dtype) && d@ == (family, function@, dtype),
                Err(e) => !registered(family, dtype) && e == KernelError::UnsupportedDataType,
            },
    {
        let known = match family {
            Family::Unary => dtype.is_float(),
            Family::Affine => dtype.is_float(),
            Family::Softmax => dtype.is_float(),
            Family::Gemm => dtype.is_float(),
            _ => true,
        };
        if known {
            Ok(KernelDescriptor { family, function: function.to_owned(), dtype })
        } else {
            Err(KernelError::UnsupportedDataType)
        }
    }

    /// Whether two descriptors name the same kernel.
    pub fn same_as(&self, other: &KernelDescriptor) -> (same: bool)
        ensures
            same == (self@ == other@),
    {
        self.family == other.family && self.dtype == other.dtype && self.function
            == other.function
    }
}

} // verus!
