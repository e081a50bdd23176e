//! The shared admission budget for terminal image caches: panes reserve
//! bytes before caching an image and release them when it is dropped, so
//! opening more panes cannot multiply the allowance.
use vstd::prelude::*;

verus! {

/// The process-wide limit of reserved image bytes: 256 MiB.
pub const GLOBAL_IMAGE_CACHE_BYTES: usize = 268435456;

/// The bytes currently reserved.
#[derive(Debug)]
pub struct ImageCacheBudget {
    reserved: usize,
}

impl View for ImageCacheBudget {
    type V = nat;

    closed spec fn view(&self) -> nat {
        self.reserved as nat
    }
}

impl ImageCacheBudget {
    /// A budget with nothing reserved.
    pub fn new() -> (r: Self)
        ensures
            r@ == 0,
    {
        ImageCacheBudget { reserved: 0 }
    }

    /// The bytes currently reserved.
    pub fn reserved(&self) -> (r: usize)
        ensures
            r == self@,
    {
        self.reserved
    }

    /// Reserves `bytes` when they fit under the limit. An empty request
    /// always succeeds and reserves nothing.
    pub fn try_reserve(&mut self, bytes: usize) -> (r: bool)
        ensures
            r == (bytes == 0 || old(self)@ + bytes <= GLOBAL_IMAGE_CACHE_BYTES),
            final(self)@ == if r {
                old(self)@ + bytes
            } else {
                old(self)@ as int
            },
    {
        if bytes == 0 || bytes > GLOBAL_IMAGE_CACHE_BYTES {
            return bytes == 0;
        }
        match self.reserved.checked_add(bytes) {
            None => false,
            Some(next) => {
                if next > GLOBAL_IMAGE_CACHE_BYTES {
                    false
                } else {
                    self.reserved = next;
                    true
                }
            },
        }
    }

    /// Releases `bytes` reserved earlier. Releasing more than is reserved
    /// wraps around, as the atomic counter it models does.
    pub fn release(&mut self, bytes: usize)
        ensures
            bytes <= old(self)@ ==> final(self)@ == old(self)@ - bytes,
            bytes > old(self)@ ==> final(self)@ == old(self)@ + usize::MAX + 1 - bytes,
    {
        if bytes > 0 {
            self.reserved = self.reserved.wrapping_sub(bytes);
        }
    }
}

/// A budget within its limit stays within it, whatever is reserved or
/// released.
pub proof fn lemma_budget_stays_within_limit(before: nat, bytes: nat, reserved: bool, after: nat)
    requires
        before <= GLOBAL_IMAGE_CACHE_BYTES,
        reserved == (bytes == 0 || before + bytes <= GLOBAL_IMAGE_CACHE_BYTES),
        after == if reserved {
            before + bytes
        } else {
            before
        },
    ensures
        after <= GLOBAL_IMAGE_CACHE_BYTES,
{
}

/// Releasing the bytes of a successful reservation gives back the budget
/// as it was before the reservation.
pub proof fn lemma_release_undoes_reserve(before: nat, bytes: nat, reserved: nat, released: nat)
    requires
        reserved == before + bytes,
        released == if bytes <= reserved {
            reserved - bytes
        } else {
            reserved + usize::MAX + 1 - bytes
        },
    ensures
        released == before,
{
}

} // verus!
