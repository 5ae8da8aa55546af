//! Virtual-to-physical address translation, consumed — not produced —
//! by the device core. The resolution mechanism itself is outside the
//! core: its result is handed in as an explicit translation map, and
//! the device only looks addresses up in it.

use vstd::prelude::*;

use crate::TranslationError;

verus! {

/// The first pair with the matching virtual address, front to back.
pub open spec fn lookup(s: Seq<(u64, u64)>, va: u64) -> Option<u64>
    decreases s.len(),
{
    if s.len() == 0 {
        None
    } else if s[0].0 == va {
        Some(s[0].1)
    } else {
        lookup(s.drop_first(), va)
    }
}

/// The translation the platform provides, as data: pairs of a virtual
/// address and the physical address backing it.
pub struct TranslationMap {
    pub entries: Vec<(u64, u64)>,
}

impl TranslationMap {
    pub fn new() -> (m: TranslationMap)
        ensures
            m.entries@ == Seq::<(u64, u64)>::empty(),
    {
        TranslationMap { entries: Vec::new() }
    }

    /// Records that `va` is backed by `pa`. An earlier entry for the
    /// same address wins, matching the lookup order.
    pub fn insert(&mut self, va: u64, pa: u64)
        ensures
            final(self).entries@ == old(self).entries@.push((va, pa)),
    {
        self.entries.push((va, pa));
    }

    /// Resolves one virtual address; `Err(Unmapped)` exactly when the
    /// map holds no entry for it.
    pub fn va_to_pa(&self, va: u64) -> (r: Result<u64, TranslationError>)
        ensures
            match lookup(self.entries@, va) {
                Some(pa) => r == Ok::<u64, TranslationError>(pa),
                None => r == Err::<u64, TranslationError>(TranslationError::Unmapped),
            },
    {
        let n = self.entries.len();
        proof {
            assert(self.entries@.skip(0) =~= self.entries@);
        }
        let mut i: usize = 0;
        while i < n
            invariant
                i <= n,
                n == self.entries.len(),
                lookup(self.entries@, va) == lookup(self.entries@.skip(i as int), va),
            decreases n - i,
        {
            let e = self.entries[i];
            proof {
                assert(self.entries@.skip(i as int)[0] == self.entries@[i as int]);
                assert(self.entries@.skip(i as int).drop_first() =~= self.entries@.skip(i + 1));
            }
            if e.0 == va {
                return Ok(e.1);
            }
            i += 1;
        }
        proof {
            assert(self.entries@.skip(n as int).len() == 0);
        }
        Err(TranslationError::Unmapped)
    }
}

} // verus!
