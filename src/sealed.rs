//! Keeps the set of key types closed.
use vstd::prelude::*;

verus! {

pub trait Sealed {}

impl Sealed for crate::EncryptionKey {}

impl Sealed for crate::DecryptionKey {}

} // verus!
