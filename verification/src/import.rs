//! Bringing bytes that were read from disk into the workspace.
//!
//! The disk is read outside this library. What is decided here is what
//! becomes of the outcome of the read: a failure is reported and leaves the
//! workspace as it was, and bytes that were read become the content of the
//! target in one step.

use crate::capability::FilesystemCapability;
use crate::error::{DiskFault, StoreError};
use crate::laws::lemma_put_after_reserve;
use crate::model::{follows, put_file};
use crate::path::PathKey;
use vstd::prelude::*;

verus! {

/// Stores at `target` what reading a source from disk gave. If the read
/// failed, fails with `ImportIoError` and leaves the backend untouched. If
/// it gave bytes, they are written through a stream that is opened on
/// `target` and committed at once; this fails, with `PathCollision`, only
/// where the backend refuses the target.
pub fn import_read<F: FilesystemCapability>(
    fs: &mut F,
    target: &PathKey,
    read: Result<Vec<u8>, DiskFault>,
) -> (r: Result<(), StoreError>)
    requires
        old(fs).ready(),
    ensures
        final(fs).ready(),
        match read {
            Err(fault) => r == Err::<(), StoreError>(StoreError::ImportIoError(fault)) && *final(fs)
                == *old(fs),
            Ok(bytes) => {
                &&& r matches Err(e) ==> e == StoreError::PathCollision
                &&& target@.len() == 0 ==> r is Err
                &&& old(fs).exclusive() matches Some(tree) ==> final(fs).exclusive() is Some
                    && follows(put_file(tree, target@, bytes@), tree, final(fs).exclusive()->Some_0, r)
            },
        },
{
    match read {
        Err(fault) => Err(StoreError::ImportIoError(fault)),
        Ok(bytes) => {
            proof {
                if let Some(tree) = fs.exclusive() {
                    lemma_put_after_reserve(tree, target@, bytes@);
                }
            }
            match fs.create(target) {
                Err(e) => Err(e),
                Ok(mut stream) => {
                    stream.write(bytes.as_slice());
                    assert(stream.buffered() =~= bytes@);
                    fs.commit(stream)
                },
            }
        },
    }
}

} // verus!
