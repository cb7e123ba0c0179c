//! The immutable sampler table: every combination of filtering, mipmap
//! and addressing mode is created once at device setup, and passes look
//! their sampler up by descriptor.
//!
//! The table stores descriptors in a fixed enumeration order; the index
//! of a descriptor identifies the sampler object the device layer created
//! for it. The table is complete (every descriptor is present), so a
//! lookup never fails.

use vstd::prelude::*;

verus! {

/// Texel filtering mode of a sampler.
#[derive(Clone, Copy, PartialEq, Eq, Structural, Debug)]
pub enum TexelFilter {
    Nearest,
    Linear,
}

/// Mipmap selection mode of a sampler.
#[derive(Clone, Copy, PartialEq, Eq, Structural, Debug)]
pub enum MipmapMode {
    Nearest,
    Linear,
}

/// Addressing mode applied to all three texture coordinates.
#[derive(Clone, Copy, PartialEq, Eq, Structural, Debug)]
pub enum AddressMode {
    Repeat,
    ClampToEdge,
}

/// What a pass asks of a sampler.
#[derive(Clone, Copy, PartialEq, Eq, Structural, Debug)]
pub struct SamplerDesc {
    pub texel_filter: TexelFilter,
    pub mipmap_mode: MipmapMode,
    pub address_modes: AddressMode,
}

/// The table of all sampler descriptors, in creation order. The device
/// layer creates one sampler object per entry; entry `i` of the table
/// describes sampler object `i`.
pub struct SamplerTable {
    pub entries: Vec<SamplerDesc>,
}

impl SamplerTable {
    /// Builds the full table: all eight combinations, each exactly once.
    pub fn new() -> (t: SamplerTable)
        ensures
            t.entries@.len() == 8,
            forall|d: SamplerDesc| t.entries@.contains(d),
            forall|i: int, j: int|
                0 <= i < j < t.entries@.len() ==> t.entries@[i] != t.entries@[j],
    {
        let mut entries: Vec<SamplerDesc> = Vec::new();
        let mut fi: usize = 0;
        while fi < 2
            invariant
                fi <= 2,
                entries@.len() == 4 * fi,
                forall|k: int|
                    0 <= k < entries@.len() ==> ((#[trigger] entries@[k]).texel_filter
                        == TexelFilter::Nearest <==> k < 4),
                forall|k: int|
                    0 <= k < entries@.len() ==> ((#[trigger] entries@[k]).mipmap_mode
                        == MipmapMode::Nearest <==> (k % 4) < 2),
                forall|k: int|
                    0 <= k < entries@.len() ==> ((#[trigger] entries@[k]).address_modes
                        == AddressMode::Repeat <==> (k % 2) == 0),
            decreases 2 - fi,
        {
            let mut mi: usize = 0;
            while mi < 2
                invariant
                    fi < 2,
                    mi <= 2,
                    entries@.len() == 4 * fi + 2 * mi,
                    forall|k: int|
                        0 <= k < entries@.len() ==> ((#[trigger] entries@[k]).texel_filter
                            == TexelFilter::Nearest <==> k < 4),
                    forall|k: int|
                        0 <= k < entries@.len() ==> ((#[trigger] entries@[k]).mipmap_mode
                            == MipmapMode::Nearest <==> (k % 4) < 2),
                    forall|k: int|
                        0 <= k < entries@.len() ==> ((#[trigger] entries@[k]).address_modes
                            == AddressMode::Repeat <==> (k % 2) == 0),
                decreases 2 - mi,
            {
                let mut ai: usize = 0;
                while ai < 2
                    invariant
                        fi < 2,
                        mi < 2,
                        ai <= 2,
                        entries@.len() == 4 * fi + 2 * mi + ai,
                        forall|k: int|
                            0 <= k < entries@.len() ==> ((#[trigger] entries@[k]).texel_filter
                                == TexelFilter::Nearest <==> k < 4),
                        forall|k: int|
                            0 <= k < entries@.len() ==> ((#[trigger] entries@[k]).mipmap_mode
                                == MipmapMode::Nearest <==> (k % 4) < 2),
                        forall|k: int|
                            0 <= k < entries@.len() ==> ((#[trigger] entries@[k]).address_modes
                                == AddressMode::Repeat <==> (k % 2) == 0),
                    decreases 2 - ai,
                {
                    let texel_filter = if fi == 0 {
                        TexelFilter::Nearest
                    } else {
                        TexelFilter::Linear
                    };
                    let mipmap_mode = if mi == 0 {
                        MipmapMode::Nearest
                    } else {
                        MipmapMode::Linear
                    };
                    let address_modes = if ai == 0 {
                        AddressMode::Repeat
                    } else {
                        AddressMode::ClampToEdge
                    };
                    entries.push(SamplerDesc { texel_filter, mipmap_mode, address_modes });
                    ai = ai + 1;
                }
                mi = mi + 1;
            }
            fi = fi + 1;
        }
        let t = SamplerTable { entries };
        proof {
            assert forall|d: SamplerDesc| t.entries@.contains(d) by {
                let k: int = (if d.texel_filter == TexelFilter::Nearest {
                    0int
                } else {
                    4int
                }) + (if d.mipmap_mode == MipmapMode::Nearest {
                    0int
                } else {
                    2int
                }) + (if d.address_modes == AddressMode::Repeat {
                    0int
                } else {
                    1int
                });
                assert(t.entries@[k] == d);
            }
        }
        t
    }

    /// Looks a descriptor up. The table is complete, so — unlike a plain
    /// map lookup — this cannot fail: the result is the index (sampler
    /// object id) whose entry equals the request.
    pub fn get(&self, desc: SamplerDesc) -> (i: usize)
        requires
            forall|d: SamplerDesc| self.entries@.contains(d),
        ensures
            i < self.entries@.len(),
            self.entries@[i as int] == desc,
    {
        let n = self.entries.len();
        let mut i: usize = 0;
        while i < n
            invariant
                i <= n,
                n == self.entries@.len(),
                forall|k: int| 0 <= k < i ==> self.entries@[k] != desc,
            decreases n - i,
        {
            if self.entries[i] == desc {
                return i;
            }
            i = i + 1;
        }
        proof {
            assert(self.entries@.contains(desc));
            assert(false);
        }
        0
    }
}

} // verus!
