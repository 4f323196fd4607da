use vstd::prelude::*;

verus! {

/// Errors that the kernel's operations report.
#[derive(Debug, Clone, Copy, PartialEq, Eq, Structural)]
pub enum KernelError {
    AllocatePage,
    MapTo,
    TranslatePage,
    CreateAddressSpace,
    DestroyAddressSpace,
    LoadProcessImage,
    LoadModules,
    SerialInit,
}

} // verus!
