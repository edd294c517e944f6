use vstd::prelude::*;

verus! {

/// A decimal unit of byte counts.
#[derive(Copy, Clone, Debug, PartialEq, Eq, Structural)]
pub enum Scale {
    B,
    KiB,
    MiB,
    GiB,
    TiB,
    PiB,
    EiB,
}

impl Scale {
    /// Bytes in one unit of this scale.
    pub open spec fn spec_factor(self) -> nat {
        match self {
            Scale::B => 1,
            Scale::KiB => 1_000,
            Scale::MiB => 1_000_000,
            Scale::GiB => 1_000_000_000,
            Scale::TiB => 1_000_000_000_000,
            Scale::PiB => 1_000_000_000_000_000,
            Scale::EiB => 1_000_000_000_000_000_000,
        }
    }

    /// The first byte count that no longer reads well in this scale.
    pub open spec fn spec_cutoff(self) -> nat {
        self.spec_factor() * 1000
    }

    pub fn factor(self) -> (r: u64)
        ensures
            r == self.spec_factor(),
    {
        match self {
            Scale::B => 1,
            Scale::KiB => 1_000,
            Scale::MiB => 1_000_000,
            Scale::GiB => 1_000_000_000,
            Scale::TiB => 1_000_000_000_000,
            Scale::PiB => 1_000_000_000_000_000,
            Scale::EiB => 1_000_000_000_000_000_000,
        }
    }

    pub fn cutoff(self) -> (r: u64)
        requires
            self != Scale::EiB,
        ensures
            r == self.spec_cutoff(),
    {
        self.factor() * 1000
    }
}

/// The smallest scale whose cutoff lies above `size`, or `EiB`.
pub open spec fn scale_of(size: u64) -> Scale {
    if size < Scale::B.spec_cutoff() {
        Scale::B
    } else if size < Scale::KiB.spec_cutoff() {
        Scale::KiB
    } else if size < Scale::MiB.spec_cutoff() {
        Scale::MiB
    } else if size < Scale::GiB.spec_cutoff() {
        Scale::GiB
    } else if size < Scale::TiB.spec_cutoff() {
        Scale::TiB
    } else if size < Scale::PiB.spec_cutoff() {
        Scale::PiB
    } else {
        Scale::EiB
    }
}

/// A byte count split for display: whole units of `scale`, and for scales
/// above bytes the count in hundredths of that unit.
pub struct FileSize {
    count: u64,
    frac: Option<u64>,
    scale: Scale,
}

impl FileSize {
    pub closed spec fn spec_count(&self) -> u64 {
        self.count
    }

    pub closed spec fn spec_frac(&self) -> Option<u64> {
        self.frac
    }

    pub closed spec fn spec_scale(&self) -> Scale {
        self.scale
    }

    pub fn new(size: u64) -> (r: FileSize)
        ensures
            r.spec_scale() == scale_of(size),
            r.spec_scale() == Scale::B ==> r.spec_count() == size && r.spec_frac() is None,
            r.spec_scale() != Scale::B ==> {
                &&& r.spec_count() == size as nat / r.spec_scale().spec_factor()
                &&& r.spec_frac() == Some(
                    (size as nat / (r.spec_scale().spec_factor() / 100)) as u64,
                )
            },
    {
        let class = if size < Scale::B.cutoff() {
            Scale::B
        } else if size < Scale::KiB.cutoff() {
            Scale::KiB
        } else if size < Scale::MiB.cutoff() {
            Scale::MiB
        } else if size < Scale::GiB.cutoff() {
            Scale::GiB
        } else if size < Scale::TiB.cutoff() {
            Scale::TiB
        } else if size < Scale::PiB.cutoff() {
            Scale::PiB
        } else {
            Scale::EiB
        };
        if class == Scale::B {
            return FileSize { count: size, frac: None, scale: Scale::B };
        }
        let divisor = class.factor();
        let count = size / divisor;
        let frac = size / (divisor / 100);
        FileSize { count, frac: Some(frac), scale: class }
    }

    pub fn count(&self) -> (r: u64)
        ensures
            r == self.spec_count(),
    {
        self.count
    }

    pub fn frac(&self) -> (r: Option<u64>)
        ensures
            r == self.spec_frac(),
    {
        self.frac
    }

    pub fn scale(&self) -> (r: Scale)
        ensures
            r == self.spec_scale(),
    {
        self.scale
    }
}

} // verus!
