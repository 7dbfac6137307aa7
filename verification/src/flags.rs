//! The portable permission model for virtual-memory mappings and its
//! translation into architecture-specific page-table attribute encodings.

use vstd::prelude::*;

verus! {

/// Permission and attribute set attached to a kernel memory region.
#[derive(Clone, Copy, PartialEq, Eq, Structural, Debug)]
pub struct MemRegionFlags {
    pub read: bool,
    pub write: bool,
    pub execute: bool,
    pub device: bool,
    pub uncached: bool,
}

/// The portable mapping permission set: a bit set over
/// read / write / execute / device / uncached / user.
#[derive(Clone, Copy, PartialEq, Eq, Structural, Debug)]
pub struct MappingFlags {
    pub read: bool,
    pub write: bool,
    pub execute: bool,
    pub device: bool,
    pub uncached: bool,
    pub user: bool,
}

impl MappingFlags {
    /// The empty permission set.
    pub fn empty() -> (r: Self)
        ensures
            r == (MappingFlags {
                read: false,
                write: false,
                execute: false,
                device: false,
                uncached: false,
                user: false,
            }),
    {
        MappingFlags {
            read: false,
            write: false,
            execute: false,
            device: false,
            uncached: false,
            user: false,
        }
    }

    /// The union of two permission sets, bit by bit.
    pub open spec fn spec_union(self, other: Self) -> Self {
        MappingFlags {
            read: self.read || other.read,
            write: self.write || other.write,
            execute: self.execute || other.execute,
            device: self.device || other.device,
            uncached: self.uncached || other.uncached,
            user: self.user || other.user,
        }
    }

    /// Unions `other` into this set.
    pub fn union(self, other: Self) -> (r: Self)
        ensures
            r == self.spec_union(other),
    {
        MappingFlags {
            read: self.read || other.read,
            write: self.write || other.write,
            execute: self.execute || other.execute,
            device: self.device || other.device,
            uncached: self.uncached || other.uncached,
            user: self.user || other.user,
        }
    }

    /// True when every bit of `other` is present in this set.
    pub fn contains(self, other: Self) -> (r: bool)
        ensures
            r == ((other.read ==> self.read) && (other.write ==> self.write) && (other.execute
                ==> self.execute) && (other.device ==> self.device) && (other.uncached
                ==> self.uncached) && (other.user ==> self.user)),
    {
        (!other.read || self.read) && (!other.write || self.write) && (!other.execute
            || self.execute) && (!other.device || self.device) && (!other.uncached
            || self.uncached) && (!other.user || self.user)
    }
}

/// What a region permission set means portably: each region bit carries
/// over, and no `user` bit exists at the region level.
pub open spec fn spec_mapping_from_region(f: MemRegionFlags) -> MappingFlags {
    MappingFlags {
        read: f.read,
        write: f.write,
        execute: f.execute,
        device: f.device,
        uncached: f.uncached,
        user: false,
    }
}

impl From<MemRegionFlags> for MappingFlags {
    /// Converts kernel region permissions into portable mapping
    /// permissions, bit for bit.
    fn from(f: MemRegionFlags) -> (r: Self) {
        let mut ret = MappingFlags::empty();
        if f.read {
            ret = ret.union(MappingFlags {
                read: true,
                write: false,
                execute: false,
                device: false,
                uncached: false,
                user: false,
            });
        }
        if f.write {
            ret = ret.union(MappingFlags {
                read: false,
                write: true,
                execute: false,
                device: false,
                uncached: false,
                user: false,
            });
        }
        if f.execute {
            ret = ret.union(MappingFlags {
                read: false,
                write: false,
                execute: true,
                device: false,
                uncached: false,
                user: false,
            });
        }
        if f.device {
            ret = ret.union(MappingFlags {
                read: false,
                write: false,
                execute: false,
                device: true,
                uncached: false,
                user: false,
            });
        }
        if f.uncached {
            ret = ret.union(MappingFlags {
                read: false,
                write: false,
                execute: false,
                device: false,
                uncached: true,
                user: false,
            });
        }
        ret
    }
}

impl vstd::std_specs::convert::FromSpecImpl<MemRegionFlags> for MappingFlags {
    open spec fn obeys_from_spec() -> bool {
        true
    }

    open spec fn from_spec(f: MemRegionFlags) -> Self {
        spec_mapping_from_region(f)
    }
}

/// Architecture-level page attribute encoding for the radix backend. The
/// hardware expresses execute, cacheability and privilege as negated bits,
/// and has no representation for `read` or `device`.
#[derive(Clone, Copy, PartialEq, Eq, Structural, Debug)]
pub struct NrPteFlags {
    pub is_writable: bool,
    pub is_supervisor: bool,
    pub disable_execute: bool,
    pub disable_cache: bool,
}

/// What the translation returns: each supported portable bit drives exactly
/// one architecture bit; `read` and `device` have no architecture-level
/// representation and are dropped.
pub open spec fn spec_nr_flags(flags: MappingFlags) -> NrPteFlags {
    NrPteFlags {
        is_writable: flags.write,
        is_supervisor: !flags.user,
        disable_execute: !flags.execute,
        disable_cache: flags.uncached,
    }
}

/// Translates the portable permission set into the architecture-specific
/// page attribute encoding.
pub fn mapping_to_nr_flags(flags: MappingFlags) -> (r: NrPteFlags)
    ensures
        r == spec_nr_flags(flags),
{
    NrPteFlags {
        is_writable: flags.write,
        is_supervisor: !flags.user,
        disable_execute: !flags.execute,
        disable_cache: flags.uncached,
    }
}

/// Flag-fidelity law, union half: translating the union of two portable
/// permission sets yields the union of the corresponding architecture bits
/// (with the architecture's negated-bit convention for execute, privilege
/// and cacheability).
pub proof fn lemma_nr_flags_union(a: MappingFlags, b: MappingFlags)
    ensures
        spec_nr_flags(a.spec_union(b)) == (NrPteFlags {
            is_writable: a.write || b.write,
            is_supervisor: !(a.user || b.user),
            disable_execute: !(a.execute || b.execute),
            disable_cache: a.uncached || b.uncached,
        }),
{
}

/// Flag-fidelity law, distinctness half: the translation is injective on
/// the bits the architecture supports. Two portable sets that agree on the
/// unsupported bits (`read`, `device`) and translate to the same encoding
/// are the same set; each supported bit is recoverable from the encoding.
pub proof fn lemma_nr_flags_injective(a: MappingFlags, b: MappingFlags)
    requires
        spec_nr_flags(a) == spec_nr_flags(b),
    ensures
        a.write == b.write,
        a.execute == b.execute,
        a.uncached == b.uncached,
        a.user == b.user,
{
}

} // verus!
