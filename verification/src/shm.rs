//! Trusted boundary to the shared-memory allocator and the identifier
//! generator. Everything the engine concludes about segments rests on its own
//! accounting; these calls only acquire the OS resources and name them.

use vstd::prelude::*;

verus! {

#[verifier::external_type_specification]
#[verifier::external_body]
pub struct ExShmem(shared_memory::Shmem);

#[verifier::external_type_specification]
#[verifier::external_body]
pub struct ExShmemError(shared_memory::ShmemError);

/// Relies on shared_memory::ShmemConf::size and ::create: allocates a
/// shared-memory mapping of at least `len` bytes, or reports the OS error.
/// `create` fails unconditionally on a zero size, so that case is kept out.
#[verifier::external_body]
pub(crate) fn alloc_segment(len: usize) -> (r: Result<
    shared_memory::Shmem,
    shared_memory::ShmemError,
>)
    requires
        len > 0,
{
    shared_memory::ShmemConf::new().size(len).create()
}

/// Relies on shared_memory::Shmem::get_os_id: the OS-level unique identifier
/// under which other processes can map the segment.
#[verifier::external_body]
pub(crate) fn segment_os_id(m: &shared_memory::Shmem) -> (r: String) {
    m.get_os_id().to_owned()
}

/// Relies on uuid::Uuid::new_v4 and its hyphenated display form: a freshly
/// generated identifier, 36 characters long. Used as the synthetic prepare
/// handle of a zero-length output, which allocates no segment.
#[verifier::external_body]
pub(crate) fn fresh_synthetic_id() -> (r: String)
    ensures
        r@.len() == 36,
{
    uuid::Uuid::new_v4().to_string()
}

} // verus!
