use vstd::prelude::*;
use crate::model::{MbrBuilderError, MbrPartSpec, MbrPhysPart};
use crate::resolve::{
    at_most_one_bootable, layout_error, layout_valid, meets_specs, number_error, part_fits, resolve_layout,
    settle_all_numbers,
};
use crate::sector::{sector_bytes, sector_image};

verus! {

/// Length of an optional byte field; an absent field has length 0.
pub open spec fn opt_len(v: Option<Vec<u8>>) -> nat {
    match v {
        Some(c) => c@.len(),
        None => 0,
    }
}

/// Two distinct partition specs are both marked bootable.
pub open spec fn two_bootable(parts: Seq<MbrPartSpec>) -> bool {
    exists|i: int, j: int|
        0 <= i < parts.len() && 0 <= j < parts.len() && i != j && (#[trigger] parts[i]).spec_bootable()
            && (#[trigger] parts[j]).spec_bootable()
}

/// Accumulates everything the sector will hold. `timestamp` is in seconds
/// since the Unix epoch; `disk_sig` is the 4-byte id and the 2-byte flag.
#[derive(Clone, Debug)]
pub struct MbrBuilder {
    pub bootcode: Option<Vec<u8>>,
    pub bootcode_2: Option<Vec<u8>>,
    pub partitions: Vec<MbrPartSpec>,
    pub timestamp: Option<u64>,
    pub original_physical_drive: Option<u8>,
    pub disk_sig: Option<(u32, u16)>,
}

impl MbrBuilder {
    pub open spec fn b1(&self) -> nat {
        opt_len(self.bootcode)
    }

    pub open spec fn b2(&self) -> nat {
        opt_len(self.bootcode_2)
    }

    /// The first rule of the field budget that the builder breaks, if any.
    pub open spec fn field_error(&self) -> Option<MbrBuilderError> {
        let b1 = self.b1();
        let b2 = self.b2();
        if b1 > 446 {
            Some(MbrBuilderError::BootcodeOversized(b1 as usize))
        } else if b2 > 222 {
            Some(MbrBuilderError::Bootcode2Oversized(b2 as usize))
        } else if self.original_physical_drive is Some && b1 > 218 {
            Some(MbrBuilderError::OriginalPhysDriveOverlapped)
        } else if self.timestamp is Some && b1 > 221 {
            Some(MbrBuilderError::BootcodeOversized(b1 as usize))
        } else if self.disk_sig is Some && (b1 > 440 || b2 > 216) {
            Some(MbrBuilderError::DiskSigOverlapped)
        } else if self.bootcode_2 is Some && b1 > 224 {
            Some(MbrBuilderError::BootCodeOverlapped(b1 as usize, b2 as usize))
        } else {
            None
        }
    }

    /// What `compile` decides for this builder, apart from the writer itself.
    pub open spec fn compile_outcome(&self) -> Option<MbrBuilderError> {
        match self.field_error() {
            Some(e) => Some(e),
            None => if two_bootable(self.partitions@) {
                Some(MbrBuilderError::MoreThan1Bootable)
            } else {
                None
            },
        }
    }

    pub open spec fn spec_modern(&self) -> bool {
        self.bootcode_2 is Some || self.original_physical_drive is Some || self.timestamp is Some
            || self.disk_sig is Some
    }

    pub fn new() -> (r: Self)
        ensures
            r.bootcode is None,
            r.bootcode_2 is None,
            r.partitions@.len() == 0,
            r.timestamp is None,
            r.original_physical_drive is None,
            r.disk_sig is None,
    {
        MbrBuilder {
            bootcode: None,
            bootcode_2: None,
            partitions: Vec::new(),
            timestamp: None,
            original_physical_drive: None,
            disk_sig: None,
        }
    }

    /// Sets the bootcode placed at byte 0; a shorter one is padded with zeros.
    /// Its length is checked by `compile`.
    pub fn set_bootcode(self, code: &[u8]) -> (r: Self)
        ensures
            r == (MbrBuilder { bootcode: r.bootcode, ..self }),
            r.bootcode matches Some(c) && c@ == code@,
    {
        let mut s = self;
        s.bootcode = Some(vstd::slice::slice_to_vec(code));
        s
    }

    /// Sets the disk timestamp, in seconds since the Unix epoch; the sector
    /// keeps its seconds, minutes and hours of the day.
    pub fn set_timestamp(self, ts: u64) -> (r: Self)
        ensures
            r == (MbrBuilder { timestamp: Some(ts), ..self }),
    {
        let mut s = self;
        s.timestamp = Some(ts);
        s
    }

    /// Sets the original physical drive byte (a BIOS drive number, 0x80 to 0xFF).
    pub fn set_original_physical_drive(self, drv: u8) -> (r: Self)
        ensures
            r == (MbrBuilder { original_physical_drive: Some(drv), ..self }),
    {
        let mut s = self;
        s.original_physical_drive = Some(drv);
        s
    }

    /// Sets the second bootcode part, placed at byte 224. Its length is
    /// checked by `compile`.
    pub fn set_bootcode_part2(self, code: &[u8]) -> (r: Self)
        ensures
            r == (MbrBuilder { bootcode_2: r.bootcode_2, ..self }),
            r.bootcode_2 matches Some(c) && c@ == code@,
    {
        let mut s = self;
        s.bootcode_2 = Some(vstd::slice::slice_to_vec(code));
        s
    }

    /// Sets the disk signature; `extra` is normally 0x0000, or 0x5A5A to mark
    /// the disk copy protected.
    pub fn set_disk_signature(self, sig: u32, extra: u16) -> (r: Self)
        ensures
            r == (MbrBuilder { disk_sig: Some((sig, extra)), ..self }),
    {
        let mut s = self;
        s.disk_sig = Some((sig, extra));
        s
    }

    /// Adds a partition spec after those already added.
    pub fn partition_add(self, spec: MbrPartSpec) -> (r: Self)
        ensures
            r == (MbrBuilder { partitions: r.partitions, ..self }),
            r.partitions@ == self.partitions@.push(spec),
    {
        let mut s = self;
        s.partitions.push(spec);
        s
    }

    /// Some field of the modern layout is in use.
    pub fn is_modern(&self) -> (r: bool)
        ensures
            r == self.spec_modern(),
    {
        self.bootcode_2.is_some() || self.original_physical_drive.is_some() || self.timestamp.is_some()
            || self.disk_sig.is_some()
    }

    /// At most one partition spec is marked bootable.
    pub fn partition_check(&self) -> (r: Result<(), MbrBuilderError>)
        ensures
            r == (if two_bootable(self.partitions@) {
                Err::<(), MbrBuilderError>(MbrBuilderError::MoreThan1Bootable)
            } else {
                Ok(())
            }),
    {
        let ghost ps = self.partitions@;
        let mut first: Option<usize> = None;
        let mut i: usize = 0;
        while i < self.partitions.len()
            invariant
                i <= ps.len(),
                ps == self.partitions@,
                match first {
                    Some(f) => f < i && ps[f as int].spec_bootable() && forall|k: int|
                        0 <= k < i && k != f ==> !(#[trigger] ps[k]).spec_bootable(),
                    None => forall|k: int| 0 <= k < i ==> !(#[trigger] ps[k]).spec_bootable(),
                },
                forall|a: int, b: int|
                    0 <= a < i && 0 <= b < i && a != b && (#[trigger] ps[a]).spec_bootable()
                        ==> !(#[trigger] ps[b]).spec_bootable(),
            decreases ps.len() - i,
        {
            if self.partitions[i].is_bootable() {
                if let Some(f) = first {
                    assert(ps[f as int].spec_bootable() && ps[i as int].spec_bootable());
                    return Err(MbrBuilderError::MoreThan1Bootable);
                }
                first = Some(i);
            }
            i += 1;
        }
        Ok(())
    }

    /// Checks the field budget, the bootable flags and the partition numbers
    /// (which do not depend on the device), and turns the builder into a
    /// writer. Edges are resolved against the device by the writer.
    pub fn compile(self) -> (r: Result<MbrWriter, MbrBuilderError>)
        ensures
            match self.compile_outcome() {
                Some(e) => r == Err::<MbrWriter, MbrBuilderError>(e),
                None => {
                    &&& r matches Ok(w) ==> w.builder() == self
                    &&& r matches Err(e) ==> number_error(e, self.partitions@)
                },
            },
    {
        let b1: usize = match &self.bootcode {
            Some(c) => c.len(),
            None => 0,
        };
        let b2: usize = match &self.bootcode_2 {
            Some(c) => c.len(),
            None => 0,
        };
        if b1 > 446 {
            return Err(MbrBuilderError::BootcodeOversized(b1));
        }
        if b2 > 222 {
            return Err(MbrBuilderError::Bootcode2Oversized(b2));
        }
        if self.original_physical_drive.is_some() && b1 > 218 {
            return Err(MbrBuilderError::OriginalPhysDriveOverlapped);
        }
        if self.timestamp.is_some() && b1 > 221 {
            return Err(MbrBuilderError::BootcodeOversized(b1));
        }
        if self.disk_sig.is_some() && (b1 > 440 || b2 > 216) {
            return Err(MbrBuilderError::DiskSigOverlapped);
        }
        if self.bootcode_2.is_some() && b1 > 224 {
            return Err(MbrBuilderError::BootCodeOverlapped(b1, b2));
        }
        if let Err(e) = self.partition_check() {
            return Err(e);
        }
        match settle_all_numbers(&self.partitions) {
            Err(e) => Err(e),
            Ok(_) => Ok(MbrWriter { inner: self }),
        }
    }
}

/// A builder that passed `compile`; the only thing that plans a write to a
/// device.
pub struct MbrWriter {
    inner: MbrBuilder,
}

impl MbrWriter {
    #[verifier::type_invariant]
    spec fn inv(&self) -> bool {
        self.inner.compile_outcome() is None
    }

    /// The builder this writer was compiled from.
    pub closed spec fn builder(&self) -> MbrBuilder {
        self.inner
    }

    /// This MBR uses fields of the modern layout.
    pub fn is_modern(&self) -> (r: bool)
        ensures
            r == self.builder().spec_modern(),
    {
        self.inner.is_modern()
    }

    /// Resolves the partition specs against a device of `device_size` bytes.
    /// A layout that comes back meets every spec, fits the device, has no two
    /// partitions that overlap or share a number, and at most one bootable.
    pub fn resolve(&self, device_size: u64) -> (r: Result<Vec<MbrPhysPart>, MbrBuilderError>)
        ensures
            r matches Ok(parts) ==> meets_specs(self.builder().partitions@, parts@, device_size)
                && layout_valid(parts@, device_size) && at_most_one_bootable(parts@),
            r matches Err(e) ==> layout_error(e, self.builder().partitions@, device_size),
    {
        proof {
            use_type_invariant(self);
        }
        let r = resolve_layout(&self.inner.partitions, device_size);
        if let Ok(parts) = &r {
            let ghost specs = self.inner.partitions@;
            assert forall|a: int, b: int|
                0 <= a < parts.len() && 0 <= b < parts.len() && a != b && (#[trigger] parts@[a]).bootable
                    implies !(#[trigger] parts@[b]).bootable by {
                assert(crate::resolve::meets_spec(specs, parts@, device_size, a));
                assert(crate::resolve::meets_spec(specs, parts@, device_size, b));
                if parts@[b].bootable {
                    assert(two_bootable(specs));
                }
            }
        }
        r
    }

    /// What committing this MBR to a device of `device_size` bytes writes:
    /// one offset, always 0, and the 512 bytes of the sector there.
    pub fn write_plan(&self, device_size: u64) -> (r: Result<(u64, Vec<u8>), MbrBuilderError>)
        ensures
            r matches Ok((offset, image)) ==> offset == 0 && image@.len() == 512 && exists|parts: Seq<
                MbrPhysPart,
            >|
                meets_specs(self.builder().partitions@, parts, device_size) && layout_valid(
                    parts,
                    device_size,
                ) && at_most_one_bootable(parts) && image@ == sector_bytes(self.builder(), parts),
            r matches Err(e) ==> layout_error(e, self.builder().partitions@, device_size),
    {
        match self.resolve(device_size) {
            Err(e) => Err(e),
            Ok(parts) => {
                proof {
                    assert forall|a: int, b: int|
                        0 <= a < parts.len() && 0 <= b < parts.len() && a != b implies #[trigger] parts@[a].number
                        != #[trigger] parts@[b].number by {
                        assert(crate::resolve::pair_ok(parts@[a], parts@[b]));
                    }
                    assert forall|j: int| 0 <= j < parts.len() implies #[trigger] part_fits(
                        parts@[j],
                        parts@[j].end,
                    ) by {
                        assert(part_fits(parts@[j], device_size));
                    }
                }
                let image = sector_image(&self.inner, &parts);
                Ok((0, image))
            },
        }
    }
}

} // verus!
