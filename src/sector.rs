use vstd::prelude::*;
use crate::builder::MbrBuilder;
use crate::model::MbrPhysPart;
use crate::resolve::{distinct_numbers, layout_valid, lemma_valid_distinct, pair_ok, part_fits, SECTOR_SIZE};

verus! {

/// Type byte written into every partition entry: the spec model has no
/// constraint that sets it, so all entries are marked "Linux native".
pub const DEFAULT_PARTITION_TYPE: u8 = 0x83;

/// Sectors per cylinder in the standard 255-head, 63-sector geometry.
pub const SECTORS_PER_CYLINDER: u64 = 16065;

/// Byte `k` (0 to 3) of `x` in little-endian order.
pub open spec fn le_byte(x: nat, k: int) -> u8 {
    if k == 0 {
        (x % 256) as u8
    } else if k == 1 {
        ((x / 256) % 256) as u8
    } else if k == 2 {
        ((x / 65536) % 256) as u8
    } else {
        ((x / 16777216) % 256) as u8
    }
}

/// The three CHS bytes (head, sector with the cylinder's two high bits,
/// cylinder's low byte) of a sector index, under the standard geometry.
/// Beyond cylinder 1023 the address saturates to `FF FF FF`.
pub open spec fn chs(lba: nat) -> (u8, u8, u8) {
    let c = lba / 16065;
    if c > 1023 {
        (0xFF, 0xFF, 0xFF)
    } else {
        let h = (lba / 63) % 255;
        let s = lba % 63 + 1;
        (h as u8, (s + (c / 256) * 64) as u8, (c % 256) as u8)
    }
}

/// First sector of a partition.
pub open spec fn first_lba(p: MbrPhysPart) -> nat {
    (p.start / 512) as nat
}

/// Last sector of a partition.
pub open spec fn last_lba(p: MbrPhysPart) -> nat {
    (p.end / 512 - 1) as nat
}

/// Number of sectors of a partition.
pub open spec fn sector_count(p: MbrPhysPart) -> nat {
    ((p.end - p.start) / 512) as nat
}

/// Byte `off` (0 to 15) of the 16-byte table entry of a partition: boot
/// indicator, starting CHS, type, ending CHS, starting LBA, sector count.
pub open spec fn entry_byte(p: MbrPhysPart, off: int) -> u8 {
    let cs = chs(first_lba(p));
    let ce = chs(last_lba(p));
    if off == 0 {
        if p.bootable {
            0x80u8
        } else {
            0u8
        }
    } else if off == 1 {
        cs.0
    } else if off == 2 {
        cs.1
    } else if off == 3 {
        cs.2
    } else if off == 4 {
        DEFAULT_PARTITION_TYPE
    } else if off == 5 {
        ce.0
    } else if off == 6 {
        ce.1
    } else if off == 7 {
        ce.2
    } else if off < 12 {
        le_byte(first_lba(p), off - 8)
    } else {
        le_byte(sector_count(p), off - 12)
    }
}

/// Some partition has number `slot`.
pub open spec fn slot_used(parts: Seq<MbrPhysPart>, slot: int) -> bool {
    exists|j: int| 0 <= j < parts.len() && (#[trigger] parts[j]).number == slot
}

/// The partition that has number `slot`.
pub open spec fn slot_part(parts: Seq<MbrPhysPart>, slot: int) -> MbrPhysPart {
    parts[choose|j: int| 0 <= j < parts.len() && (#[trigger] parts[j]).number == slot]
}

/// Byte `off` of table slot `slot`: the entry of the partition numbered
/// `slot`, or zero when no partition has that number.
pub open spec fn slot_byte(parts: Seq<MbrPhysPart>, slot: int, off: int) -> u8 {
    if slot_used(parts, slot) {
        entry_byte(slot_part(parts, slot), off)
    } else {
        0
    }
}

/// Byte `k` of the MBR sector. Bootcode from byte 0; original physical
/// drive at 220 after two zero bytes; timestamp (seconds, minutes, hours of
/// the day) at 221; second bootcode part from 224; disk signature at 440 and
/// its flag at 444; the four table entries from 446; `55 AA` at 510. Unused
/// bytes are zero.
pub open spec fn sector_byte(b: MbrBuilder, parts: Seq<MbrPhysPart>, k: int) -> u8 {
    if k == 510 {
        0x55
    } else if k == 511 {
        0xAA
    } else if k >= 446 {
        slot_byte(parts, (k - 446) / 16, (k - 446) % 16)
    } else if k >= 440 && b.disk_sig is Some {
        let (sig, extra) = b.disk_sig->0;
        if k < 444 {
            le_byte(sig as nat, k - 440)
        } else {
            le_byte(extra as nat, k - 444)
        }
    } else if b.bootcode_2 is Some && 224 <= k < 224 + b.bootcode_2->0@.len() {
        b.bootcode_2->0@[k - 224]
    } else if b.timestamp is Some && 221 <= k < 224 {
        let t = b.timestamp->0;
        if k == 221 {
            (t % 60) as u8
        } else if k == 222 {
            ((t / 60) % 60) as u8
        } else {
            ((t / 3600) % 24) as u8
        }
    } else if b.original_physical_drive is Some && 218 <= k < 221 {
        if k == 220 {
            b.original_physical_drive->0
        } else {
            0
        }
    } else if b.bootcode is Some && k < b.bootcode->0@.len() {
        b.bootcode->0@[k]
    } else {
        0
    }
}

/// The whole MBR sector.
pub open spec fn sector_bytes(b: MbrBuilder, parts: Seq<MbrPhysPart>) -> Seq<u8> {
    Seq::new(512, |k: int| sector_byte(b, parts, k))
}

fn le_byte_of(x: u64, k: usize) -> (r: u8)
    ensures
        r == le_byte(x as nat, k as int),
{
    if k == 0 {
        (x % 256) as u8
    } else if k == 1 {
        ((x / 256) % 256) as u8
    } else if k == 2 {
        ((x / 65536) % 256) as u8
    } else {
        ((x / 16777216) % 256) as u8
    }
}

/// CHS address of sector `lba` under the standard geometry, saturated to
/// `FF FF FF` past cylinder 1023.
pub fn chs_of_lba(lba: u64) -> (r: (u8, u8, u8))
    ensures
        r == chs(lba as nat),
        lba / SECTORS_PER_CYLINDER > 1023 ==> r == (0xFFu8, 0xFFu8, 0xFFu8),
{
    let c = lba / SECTORS_PER_CYLINDER;
    if c > 1023 {
        (0xFF, 0xFF, 0xFF)
    } else {
        let h = (lba / 63) % 255;
        let s = lba % 63 + 1;
        (h as u8, (s + (c / 256) * 64) as u8, (c % 256) as u8)
    }
}

/// Byte `off` of the table entry of `p`.
pub fn entry_byte_of(p: &MbrPhysPart, off: usize) -> (r: u8)
    requires
        part_fits(*p, p.end),
        off < 16,
    ensures
        r == entry_byte(*p, off as int),
{
    if off == 0 {
        if p.bootable {
            0x80
        } else {
            0
        }
    } else if off < 4 {
        let cs = chs_of_lba(p.start / SECTOR_SIZE);
        if off == 1 {
            cs.0
        } else if off == 2 {
            cs.1
        } else {
            cs.2
        }
    } else if off == 4 {
        DEFAULT_PARTITION_TYPE
    } else if off < 8 {
        let ce = chs_of_lba(p.end / SECTOR_SIZE - 1);
        if off == 5 {
            ce.0
        } else if off == 6 {
            ce.1
        } else {
            ce.2
        }
    } else if off < 12 {
        le_byte_of(p.start / SECTOR_SIZE, off - 8)
    } else {
        le_byte_of((p.end - p.start) / SECTOR_SIZE, off - 12)
    }
}


/// Byte `off` of table slot `slot`.
fn slot_byte_of(parts: &Vec<MbrPhysPart>, slot: u32, off: usize) -> (r: u8)
    requires
        distinct_numbers(parts@),
        forall|j: int| 0 <= j < parts.len() ==> #[trigger] part_fits(parts@[j], parts@[j].end),
        off < 16,
    ensures
        r == slot_byte(parts@, slot as int, off as int),
{
    let mut j: usize = 0;
    while j < parts.len()
        invariant
            j <= parts.len(),
            off < 16,
            distinct_numbers(parts@),
            forall|j: int| 0 <= j < parts.len() ==> #[trigger] part_fits(parts@[j], parts@[j].end),
            forall|q: int| 0 <= q < j ==> (#[trigger] parts@[q]).number != slot,
        decreases parts.len() - j,
    {
        if parts[j].number == slot {
            proof {
                assert(slot_used(parts@, slot as int));
                let c = choose|q: int| 0 <= q < parts.len() && (#[trigger] parts@[q]).number == slot;
                assert(parts@[c].number == parts@[j as int].number);
                assert(c == j);
                assert(part_fits(parts@[j as int], parts@[j as int].end));
            }
            return entry_byte_of(&parts[j], off);
        }
        j += 1;
    }
    0
}

/// Byte `k` of the sector.
fn sector_byte_of(b: &MbrBuilder, parts: &Vec<MbrPhysPart>, k: usize) -> (r: u8)
    requires
        distinct_numbers(parts@),
        forall|j: int| 0 <= j < parts.len() ==> #[trigger] part_fits(parts@[j], parts@[j].end),
        k < 512,
    ensures
        r == sector_byte(*b, parts@, k as int),
{
    if k == 510 {
        0x55
    } else if k == 511 {
        0xAA
    } else if k >= 446 {
        slot_byte_of(parts, ((k - 446) / 16) as u32, (k - 446) % 16)
    } else {
        if k >= 440 {
            if let Some((sig, extra)) = b.disk_sig {
                if k < 444 {
                    return le_byte_of(sig as u64, k - 440);
                } else {
                    return le_byte_of(extra as u64, k - 444);
                }
            }
        }
        if let Some(c) = &b.bootcode_2 {
            if 224 <= k && k - 224 < c.len() {
                return c[k - 224];
            }
        }
        if let Some(t) = b.timestamp {
            if 221 <= k && k < 224 {
                if k == 221 {
                    return (t % 60) as u8;
                } else if k == 222 {
                    return ((t / 60) % 60) as u8;
                } else {
                    return ((t / 3600) % 24) as u8;
                }
            }
        }
        if let Some(d) = b.original_physical_drive {
            if 218 <= k && k < 221 {
                if k == 220 {
                    return d;
                } else {
                    return 0;
                }
            }
        }
        if let Some(c) = &b.bootcode {
            if k < c.len() {
                return c[k];
            }
        }
        0
    }
}

/// Encodes the MBR sector of a builder and its resolved partitions.
pub fn sector_image(b: &MbrBuilder, parts: &Vec<MbrPhysPart>) -> (r: Vec<u8>)
    requires
        distinct_numbers(parts@),
        forall|j: int| 0 <= j < parts.len() ==> #[trigger] part_fits(parts@[j], parts@[j].end),
    ensures
        r@ == sector_bytes(*b, parts@),
{
    let mut v: Vec<u8> = Vec::new();
    let mut k: usize = 0;
    while k < 512
        invariant
            k <= 512,
            v@.len() == k,
            distinct_numbers(parts@),
            forall|j: int| 0 <= j < parts.len() ==> #[trigger] part_fits(parts@[j], parts@[j].end),
            forall|q: int| 0 <= q < k ==> v@[q] == sector_byte(*b, parts@, q),
        decreases 512 - k,
    {
        v.push(sector_byte_of(b, parts, k));
        k += 1;
    }
    assert(v@ =~= sector_bytes(*b, parts@));
    v
}


/// The 32-bit little-endian value stored at `at` in `b`.
pub open spec fn le_u32(b: Seq<u8>, at: int) -> nat {
    (b[at] + 256 * b[at + 1] + 65536 * b[at + 2] + 16777216 * b[at + 3]) as nat
}

proof fn lemma_le_bytes_decode(x: nat)
    requires
        x < 0x1_0000_0000,
    ensures
        le_byte(x, 0) + 256 * le_byte(x, 1) + 65536 * le_byte(x, 2) + 16777216 * le_byte(x, 3) == x,
{
    let a = x / 256;
    let b2 = x / 65536;
    let c = x / 16777216;
    assert(x == 256 * a + x % 256) by {
        vstd::arithmetic::div_mod::lemma_fundamental_div_mod(x as int, 256);
    }
    assert(a == 256 * b2 + a % 256 && b2 == 256 * c + b2 % 256) by {
        vstd::arithmetic::div_mod::lemma_div_denominator(x as int, 256, 256);
        vstd::arithmetic::div_mod::lemma_div_denominator(x as int, 65536, 256);
        vstd::arithmetic::div_mod::lemma_fundamental_div_mod(a as int, 256);
        vstd::arithmetic::div_mod::lemma_fundamental_div_mod(b2 as int, 256);
    }
    assert(c < 256) by {
        vstd::arithmetic::div_mod::lemma_div_by_multiple_is_strongly_ordered(x as int, 0x1_0000_0000, 256, 16777216);
    }
    assert(le_byte(x, 0) == x % 256);
    assert(le_byte(x, 1) == a % 256);
    assert(le_byte(x, 2) == b2 % 256);
    assert(le_byte(x, 3) == c);
    assert(x == (x % 256) + 256 * (a % 256) + 65536 * (b2 % 256) + 16777216 * c) by (nonlinear_arith)
        requires
            x == 256 * a + x % 256,
            a == 256 * b2 + a % 256,
            b2 == 256 * c + b2 % 256,
    ;
}

/// Reading back the table entry of slot `k` of an encoded sector gives the
/// partition's exact first sector and sector count in the LBA fields, while
/// a partition starting past cylinder 1023 has the saturated CHS start.
pub proof fn sector_entry_decodes(b: MbrBuilder, parts: Seq<MbrPhysPart>, k: int)
    requires
        distinct_numbers(parts),
        forall|j: int| 0 <= j < parts.len() ==> #[trigger] part_fits(parts[j], parts[j].end),
        0 <= k < 4,
        slot_used(parts, k),
    ensures
        ({
            let img = sector_bytes(b, parts);
            let p = slot_part(parts, k);
            let e = 446 + 16 * k;
            &&& le_u32(img, e + 8) == p.start / 512
            &&& le_u32(img, e + 12) == (p.end - p.start) / 512
            &&& p.start / 512 / 16065 > 1023 ==> img[e + 1] == 0xFF && img[e + 2] == 0xFF && img[e + 3] == 0xFF
        }),
{
    let img = sector_bytes(b, parts);
    let p = slot_part(parts, k);
    let e = 446 + 16 * k;
    let j = choose|j: int| 0 <= j < parts.len() && (#[trigger] parts[j]).number == k;
    assert(part_fits(parts[j], parts[j].end));
    assert forall|off: int| 0 <= off < 16 implies img[e + off] == entry_byte(p, off) by {
        assert((e + off - 446) / 16 == k) by (nonlinear_arith)
            requires
                e == 446 + 16 * k,
                0 <= off < 16,
        ;
        assert((e + off - 446) % 16 == off) by (nonlinear_arith)
            requires
                e == 446 + 16 * k,
                0 <= off < 16,
        ;
    }
    assert(p.end / 512 <= 0xffff_ffff);
    assert(first_lba(p) < 0x1_0000_0000);
    assert(sector_count(p) < 0x1_0000_0000);
    lemma_le_bytes_decode(first_lba(p));
    lemma_le_bytes_decode(sector_count(p));
    assert(img[e + 8] == le_byte(first_lba(p), 0));
    assert(img[e + 9] == le_byte(first_lba(p), 1));
    assert(img[e + 10] == le_byte(first_lba(p), 2));
    assert(img[e + 11] == le_byte(first_lba(p), 3));
    assert(img[e + 12] == le_byte(sector_count(p), 0));
    assert(img[e + 13] == le_byte(sector_count(p), 1));
    assert(img[e + 14] == le_byte(sector_count(p), 2));
    assert(img[e + 15] == le_byte(sector_count(p), 3));
    assert(img[e + 1] == entry_byte(p, 1));
    assert(img[e + 2] == entry_byte(p, 2));
    assert(img[e + 3] == entry_byte(p, 3));
}


proof fn lemma_aligned_sectors(p: MbrPhysPart)
    requires
        p.start < p.end,
        p.start % 512 == 0,
        p.end % 512 == 0,
    ensures
        first_lba(p) + sector_count(p) == p.end / 512,
        sector_count(p) > 0,
        first_lba(p) * 512 == p.start,
        (p.end / 512) * 512 == p.end,
{
    let a = p.start / 512;
    let c = p.end / 512;
    vstd::arithmetic::div_mod::lemma_fundamental_div_mod(p.start as int, 512);
    vstd::arithmetic::div_mod::lemma_fundamental_div_mod(p.end as int, 512);
    assert(p.end - p.start == 512 * (c - a)) by (nonlinear_arith)
        requires
            p.start == 512 * a,
            p.end == 512 * c,
    ;
    vstd::arithmetic::div_mod::lemma_div_multiples_vanish((c - a) as int, 512);
    assert(c > a) by (nonlinear_arith)
        requires
            p.start == 512 * a,
            p.end == 512 * c,
            p.start < p.end,
    ;
}

/// In a sector encoded from a valid layout, every used table slot decodes
/// to a nonempty sector range inside the device, and two used slots decode
/// to disjoint ranges.
pub proof fn sector_slots_disjoint(b: MbrBuilder, parts: Seq<MbrPhysPart>, device_size: u64, k1: int, k2: int)
    requires
        layout_valid(parts, device_size),
        0 <= k1 < 4,
        0 <= k2 < 4,
        k1 != k2,
        slot_used(parts, k1),
        slot_used(parts, k2),
    ensures
        ({
            let img = sector_bytes(b, parts);
            let s1 = le_u32(img, 446 + 16 * k1 + 8);
            let n1 = le_u32(img, 446 + 16 * k1 + 12);
            let s2 = le_u32(img, 446 + 16 * k2 + 8);
            let n2 = le_u32(img, 446 + 16 * k2 + 12);
            &&& n1 > 0
            &&& (s1 + n1) * 512 <= device_size
            &&& s1 + n1 <= s2 || s2 + n2 <= s1
        }),
{
    lemma_valid_distinct(parts, device_size);
    assert forall|j: int| 0 <= j < parts.len() implies #[trigger] part_fits(parts[j], parts[j].end) by {
        assert(part_fits(parts[j], device_size));
    }
    sector_entry_decodes(b, parts, k1);
    sector_entry_decodes(b, parts, k2);
    let j1 = choose|j: int| 0 <= j < parts.len() && (#[trigger] parts[j]).number == k1;
    let j2 = choose|j: int| 0 <= j < parts.len() && (#[trigger] parts[j]).number == k2;
    let p1 = parts[j1];
    let p2 = parts[j2];
    assert(part_fits(p1, device_size));
    assert(part_fits(p2, device_size));
    assert(pair_ok(p1, p2));
    lemma_aligned_sectors(p1);
    lemma_aligned_sectors(p2);
    let c1 = p1.end / 512;
    let c2 = p2.end / 512;
    assert(c1 * 512 <= device_size);
    if p1.end <= p2.start {
        assert(c1 <= first_lba(p2)) by (nonlinear_arith)
            requires
                c1 * 512 == p1.end,
                first_lba(p2) * 512 == p2.start,
                p1.end <= p2.start,
        ;
    } else {
        assert(c2 <= first_lba(p1)) by (nonlinear_arith)
            requires
                c2 * 512 == p2.end,
                first_lba(p1) * 512 == p1.start,
                p2.end <= p1.start,
        ;
    }
}

/// In a sector encoded from a layout where partition `b_part` starts where
/// partition `a_part` ends, the first sector of `b_part`'s entry equals the
/// first sector plus the sector count of `a_part`'s entry.
pub proof fn sector_adjacent_entries(b: MbrBuilder, parts: Seq<MbrPhysPart>, device_size: u64, a_part: int, b_part: int)
    requires
        layout_valid(parts, device_size),
        0 <= a_part < parts.len(),
        0 <= b_part < parts.len(),
        parts[b_part].start == parts[a_part].end,
    ensures
        ({
            let img = sector_bytes(b, parts);
            let ea = 446 + 16 * parts[a_part].number;
            let eb = 446 + 16 * parts[b_part].number;
            le_u32(img, eb + 8) == le_u32(img, ea + 8) + le_u32(img, ea + 12)
        }),
{
    lemma_valid_distinct(parts, device_size);
    assert forall|j: int| 0 <= j < parts.len() implies #[trigger] part_fits(parts[j], parts[j].end) by {
        assert(part_fits(parts[j], device_size));
    }
    let ka = parts[a_part].number as int;
    let kb = parts[b_part].number as int;
    assert(part_fits(parts[a_part], device_size));
    assert(part_fits(parts[b_part], device_size));
    assert(slot_used(parts, ka));
    assert(slot_used(parts, kb));
    sector_entry_decodes(b, parts, ka);
    sector_entry_decodes(b, parts, kb);
    let ja = choose|j: int| 0 <= j < parts.len() && (#[trigger] parts[j]).number == ka;
    let jb = choose|j: int| 0 <= j < parts.len() && (#[trigger] parts[j]).number == kb;
    assert(ja == a_part);
    assert(jb == b_part);
    lemma_aligned_sectors(parts[a_part]);
}

} // verus!
