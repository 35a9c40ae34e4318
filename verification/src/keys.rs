//! Key trait implementations for common key types.
//!
//! `String` routes by its character length and `u16` by its value; shard
//! distribution only needs to be roughly even, so cheap indices are fine.

use vstd::prelude::*;

use crate::bucket::Bucketize;
use crate::entry::KeyTraits;

verus! {

impl Bucketize for String {
    open spec fn bucket_spec(v: Seq<char>, n: int) -> int {
        v.len() as int % n
    }

    proof fn bucket_spec_in_range(v: Seq<char>, n: int) {
    }

    fn bucket(&self, n: usize) -> (r: usize) {
        self.as_str().unicode_len() % n
    }
}

impl KeyTraits for String {
    fn key_eq(&self, other: &Self) -> (r: bool) {
        self.eq(other)
    }

    fn key_clone(&self) -> (r: Self) {
        self.clone()
    }
}

impl Bucketize for u16 {
    open spec fn bucket_spec(v: u16, n: int) -> int {
        v as int % n
    }

    proof fn bucket_spec_in_range(v: u16, n: int) {
    }

    fn bucket(&self, n: usize) -> (r: usize) {
        (*self as usize) % n
    }
}

impl KeyTraits for u16 {
    fn key_eq(&self, other: &Self) -> (r: bool) {
        *self == *other
    }

    fn key_clone(&self) -> (r: Self) {
        *self
    }
}

} // verus!
