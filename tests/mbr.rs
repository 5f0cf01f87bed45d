use mbr_writer::builder::{MbrBuilder, MbrWriter};
use mbr_writer::model::{LocSpec, MbrBuilderError, MbrPartSpec, MbrPhysPart, NumSpec, PartRef, PartSpec};
use mbr_writer::sector::{chs_of_lba, entry_byte_of, sector_image, DEFAULT_PARTITION_TYPE};

const MIB: u64 = 1048576;
const GIB: u64 = 1024 * MIB;

fn two_part_writer() -> MbrWriter {
    let a = MbrPartSpec::new(vec![
        PartSpec::Start(LocSpec::AtByte(1048576)),
        PartSpec::End(LocSpec::AtByte(104857600)),
    ]);
    let b = MbrPartSpec::new(vec![
        PartSpec::Start(LocSpec::AtEndOf(PartRef::Previous(1))),
        PartSpec::End(LocSpec::AtByte(209715200)),
        PartSpec::IsBootable,
    ]);
    match MbrBuilder::new().partition_add(a).partition_add(b).compile() {
        Ok(w) => w,
        Err(e) => panic!("compile failed: {:?}", e),
    }
}

#[test]
fn is_bootable_finds_flag() {
    assert!(!MbrPartSpec::new(vec![]).is_bootable());
    assert!(MbrPartSpec::new(vec![PartSpec::Number(NumSpec::Exact(1)), PartSpec::IsBootable]).is_bootable());
    assert!(!MbrPartSpec::new(vec![PartSpec::Number(NumSpec::Exact(1))]).is_bootable());
}

#[test]
fn primary_and_extended() {
    let p = MbrPhysPart::new(3, 512, 1024, false);
    assert!(p.is_primary());
    assert!(!p.is_extended());
    let q = MbrPhysPart::new(4, 512, 1024, false);
    assert!(!q.is_primary());
    assert!(q.is_extended());
}

#[test]
fn modern_fields_make_modern() {
    let w = MbrBuilder::new().set_bootcode(&[1, 2, 3]).compile().unwrap_or_else(|_| panic!("compile"));
    assert!(!w.is_modern());
    let b = MbrBuilder::new().set_timestamp(0);
    assert!(b.is_modern());
    assert!(MbrBuilder::new().set_original_physical_drive(0x80).is_modern());
    assert!(MbrBuilder::new().set_disk_signature(1, 0).is_modern());
    assert!(MbrBuilder::new().set_bootcode_part2(&[]).is_modern());
}

#[test]
fn two_bootable_specs_rejected() {
    let a = MbrPartSpec::new(vec![PartSpec::IsBootable]);
    let b = MbrPartSpec::new(vec![PartSpec::Number(NumSpec::Exact(2)), PartSpec::IsBootable]);
    let r = MbrBuilder::new().partition_add(a).partition_add(b).compile();
    assert!(matches!(r, Err(MbrBuilderError::MoreThan1Bootable)));
}

#[test]
fn one_bootable_spec_accepted() {
    let a = MbrPartSpec::new(vec![PartSpec::IsBootable, PartSpec::IsBootable]);
    let b = MbrPartSpec::new(vec![]);
    assert!(MbrBuilder::new().partition_add(a).partition_add(b).partition_check().is_ok());
}

#[test]
fn disk_signature_boundary() {
    let ok = MbrBuilder::new().set_bootcode(&[0xAB; 440]).set_disk_signature(0x12345678, 0x5A5A).compile();
    assert!(ok.is_ok());
    let ok = MbrBuilder::new()
        .set_bootcode(&[0xAB; 224])
        .set_bootcode_part2(&[0xCD; 216])
        .set_disk_signature(0x12345678, 0x5A5A)
        .compile();
    assert!(ok.is_ok());
    let bad = MbrBuilder::new().set_bootcode(&[0xAB; 441]).set_disk_signature(0x12345678, 0x5A5A).compile();
    assert!(matches!(bad, Err(MbrBuilderError::DiskSigOverlapped)));
    // a second bootcode part starts at byte 224, inside a 440-byte bootcode
    let both = MbrBuilder::new()
        .set_bootcode(&[0xAB; 440])
        .set_bootcode_part2(&[0xCD; 216])
        .set_disk_signature(0x12345678, 0x5A5A)
        .compile();
    assert!(matches!(both, Err(MbrBuilderError::BootCodeOverlapped(440, 216))));
}

#[test]
fn oversized_errors() {
    let r = MbrBuilder::new().set_bootcode(&[0; 447]).compile();
    assert!(matches!(r, Err(MbrBuilderError::BootcodeOversized(447))));
    let r = MbrBuilder::new().set_bootcode_part2(&[0; 223]).compile();
    assert!(matches!(r, Err(MbrBuilderError::Bootcode2Oversized(223))));
    let r = MbrBuilder::new().set_bootcode(&[0; 222]).set_timestamp(5).compile();
    assert!(matches!(r, Err(MbrBuilderError::BootcodeOversized(222))));
    let r = MbrBuilder::new().set_bootcode(&[0; 221]).set_timestamp(5).compile();
    assert!(r.is_ok());
}

#[test]
fn overlap_errors() {
    let r = MbrBuilder::new().set_bootcode(&[0; 219]).set_original_physical_drive(0x80).compile();
    assert!(matches!(r, Err(MbrBuilderError::OriginalPhysDriveOverlapped)));
    let r = MbrBuilder::new().set_bootcode(&[0; 218]).set_original_physical_drive(0x80).compile();
    assert!(r.is_ok());
    let r = MbrBuilder::new().set_bootcode(&[0; 225]).set_bootcode_part2(&[1; 10]).compile();
    assert!(matches!(r, Err(MbrBuilderError::BootCodeOverlapped(225, 10))));
    let r = MbrBuilder::new().set_bootcode(&[0; 441]).set_disk_signature(7, 0).compile();
    assert!(matches!(r, Err(MbrBuilderError::DiskSigOverlapped)));
    let r = MbrBuilder::new().set_bootcode_part2(&[0; 217]).set_disk_signature(7, 0).compile();
    assert!(matches!(r, Err(MbrBuilderError::DiskSigOverlapped)));
}

#[test]
fn start_at_end_of_previous_resolves() {
    let w = two_part_writer();
    let parts = w.resolve(GIB).unwrap_or_else(|e| panic!("resolve: {:?}", e));
    assert_eq!(parts.len(), 2);
    assert_eq!(parts[0], MbrPhysPart::new(0, 1048576, 104857600, false));
    assert_eq!(parts[1], MbrPhysPart::new(1, 104857600, 209715200, true));
    assert_eq!(parts[1].start, parts[0].end);
}

#[test]
fn resolved_layout_disjoint_and_inside() {
    let a = MbrPartSpec::new(vec![PartSpec::End(LocSpec::AtStartOf(PartRef::Exact(1)))]);
    let b = MbrPartSpec::new(vec![
        PartSpec::Number(NumSpec::AfterPart(PartRef::Previous(1))),
        PartSpec::Start(LocSpec::AtByte(64 * MIB)),
        PartSpec::End(LocSpec::AtByte(512 * MIB)),
    ]);
    let c = MbrPartSpec::new(vec![
        PartSpec::Number(NumSpec::Exact(3)),
        PartSpec::Start(LocSpec::AtEndOf(PartRef::Exact(1))),
    ]);
    let w = MbrBuilder::new().partition_add(a).partition_add(b).partition_add(c).compile().unwrap_or_else(|_| panic!("compile"));
    let parts = w.resolve(GIB).unwrap_or_else(|e| panic!("resolve: {:?}", e));
    assert_eq!(parts[0], MbrPhysPart::new(0, 512, 64 * MIB, false));
    assert_eq!(parts[1], MbrPhysPart::new(1, 64 * MIB, 512 * MIB, false));
    assert_eq!(parts[2], MbrPhysPart::new(3, 512 * MIB, GIB, false));
    for i in 0..parts.len() {
        assert!(parts[i].start < parts[i].end && parts[i].end <= GIB);
        for j in 0..parts.len() {
            if i != j {
                assert!(parts[i].end <= parts[j].start || parts[j].end <= parts[i].start);
            }
        }
    }
}

#[test]
fn overlapping_layout_rejected() {
    let a = MbrPartSpec::new(vec![]);
    let b = MbrPartSpec::new(vec![PartSpec::Start(LocSpec::AtByte(MIB))]);
    let w = MbrBuilder::new().partition_add(a).partition_add(b).compile().unwrap_or_else(|_| panic!("compile"));
    assert!(matches!(w.resolve(GIB), Err(MbrBuilderError::Overlap(0, 1))));
}

#[test]
fn resolution_errors() {
    // two edges defined by each other
    let a = MbrPartSpec::new(vec![PartSpec::End(LocSpec::AtStartOf(PartRef::Next(0)))]);
    let b = MbrPartSpec::new(vec![PartSpec::Start(LocSpec::AtEndOf(PartRef::Previous(1)))]);
    let w = MbrBuilder::new().partition_add(a).partition_add(b).compile().unwrap_or_else(|_| panic!("compile"));
    assert!(matches!(w.resolve(GIB), Err(MbrBuilderError::UnresolvedReference(0))));


    let a = MbrPartSpec::new(vec![PartSpec::End(LocSpec::AtByte(1000))]);
    let w = MbrBuilder::new().partition_add(a).compile().unwrap_or_else(|_| panic!("compile"));
    assert!(matches!(w.resolve(GIB), Err(MbrBuilderError::OutOfBounds(0))));

    let a = MbrPartSpec::new(vec![]);
    let w = MbrBuilder::new().partition_add(a).compile().unwrap_or_else(|_| panic!("compile"));
    assert!(matches!(w.resolve(GIB + 100), Err(MbrBuilderError::OutOfBounds(0))));

    let a = MbrPartSpec::new(vec![PartSpec::Number(NumSpec::Exact(1)), PartSpec::End(LocSpec::AtByte(MIB))]);
    let b = MbrPartSpec::new(vec![PartSpec::Number(NumSpec::Exact(1)), PartSpec::Start(LocSpec::AtByte(MIB))]);
    let w = MbrBuilder::new().partition_add(a).partition_add(b).compile().unwrap_or_else(|_| panic!("compile"));
    assert!(matches!(w.resolve(GIB), Err(MbrBuilderError::DuplicateNumber(0, 1))));

    // a second Start that disagrees with the first
    let a = MbrPartSpec::new(vec![
        PartSpec::Start(LocSpec::AtByte(MIB)),
        PartSpec::Start(LocSpec::AtByte(2 * MIB)),
    ]);
    let w = MbrBuilder::new().partition_add(a).compile().unwrap_or_else(|_| panic!("compile"));
    assert!(matches!(w.resolve(GIB), Err(MbrBuilderError::ConstraintConflict(0))));
}

#[test]
fn number_before_part() {
    let a = MbrPartSpec::new(vec![
        PartSpec::Number(NumSpec::BeforePart(PartRef::Next(0))),
        PartSpec::End(LocSpec::AtByte(MIB)),
    ]);
    let b = MbrPartSpec::new(vec![PartSpec::Number(NumSpec::Exact(3)), PartSpec::Start(LocSpec::AtByte(MIB))]);
    let w = MbrBuilder::new().partition_add(a).partition_add(b).compile().unwrap_or_else(|_| panic!("compile"));
    let parts = w.resolve(GIB).unwrap_or_else(|e| panic!("resolve: {:?}", e));
    assert_eq!(parts[0].number, 2);
    assert_eq!(parts[1].number, 3);
}

#[test]
fn two_partition_sector_image() {
    let w = two_part_writer();
    let (offset, img) = w.write_plan(GIB).unwrap_or_else(|e| panic!("plan: {:?}", e));
    assert_eq!(offset, 0);
    assert_eq!(img.len(), 512);
    assert_eq!(img[510], 0x55);
    assert_eq!(img[511], 0xAA);
    assert_eq!(img[446], 0x00);
    assert_eq!(img[462], 0x80);
    assert_eq!(&img[454..458], &[0x00, 0x08, 0x00, 0x00]);
    // sector count of partition 0: (104857600 - 1048576) / 512 = 202752
    assert_eq!(&img[458..462], &[0x00, 0x18, 0x03, 0x00]);
    // partition 1 starts at sector 204800
    assert_eq!(&img[470..474], &[0x00, 0x20, 0x03, 0x00]);
    assert_eq!(img[450], DEFAULT_PARTITION_TYPE);
    // starting CHS of partition 0: sector 2048 is head 32, sector 33, cylinder 0
    assert_eq!(&img[447..450], &[32, 33, 0]);
    assert!(img[478..510].iter().all(|&x| x == 0));
}

#[test]
fn commit_is_one_sector_write() {
    let w = two_part_writer();
    let (offset, img) = w.write_plan(GIB).unwrap_or_else(|e| panic!("plan: {:?}", e));
    assert_eq!(offset, 0);
    assert_eq!(img.len(), 512);
    let w = MbrBuilder::new().compile().unwrap_or_else(|_| panic!("compile"));
    let (offset, img) = w.write_plan(0).unwrap_or_else(|e| panic!("plan: {:?}", e));
    assert_eq!(offset, 0);
    assert_eq!(img.len(), 512);
    assert!(img[..510].iter().all(|&x| x == 0));
}

#[test]
fn chs_saturates_past_cylinder_1023() {
    assert_eq!(chs_of_lba(1024 * 16065), (0xFF, 0xFF, 0xFF));
    assert_eq!(chs_of_lba(u64::MAX / 512), (0xFF, 0xFF, 0xFF));
    // last addressable: cylinder 1023, head 254, sector 63
    assert_eq!(chs_of_lba(1024 * 16065 - 1), (254, 63 + 3 * 64, 0xFF));
    assert_eq!(chs_of_lba(0), (0, 1, 0));
    // a partition far past the CHS range keeps its exact LBA
    let start = 1024 * 16065 * 512;
    let p = MbrPhysPart::new(0, start, start + 512 * 8, false);
    let entry: Vec<u8> = (0..16).map(|k| entry_byte_of(&p, k)).collect();
    assert_eq!(&entry[1..4], &[0xFF, 0xFF, 0xFF]);
    assert_eq!(&entry[5..8], &[0xFF, 0xFF, 0xFF]);
    assert_eq!(&entry[8..12], &[0x00, 0x04, 0xFB, 0x00]);
    assert_eq!(&entry[12..16], &[8, 0, 0, 0]);
}

#[test]
fn modern_fields_in_sector() {
    let w = MbrBuilder::new()
        .set_bootcode(&[0x11; 218])
        .set_original_physical_drive(0x81)
        .set_timestamp(3600 * 25 + 60 * 7 + 9)
        .set_bootcode_part2(&[0x22; 216])
        .set_disk_signature(0x12345678, 0x5A5A)
        .compile()
        .unwrap_or_else(|_| panic!("compile"));
    let (_, img) = w.write_plan(0).unwrap_or_else(|e| panic!("plan: {:?}", e));
    assert!(img[..218].iter().all(|&x| x == 0x11));
    assert_eq!(&img[218..224], &[0, 0, 0x81, 9, 7, 1]);
    assert!(img[224..440].iter().all(|&x| x == 0x22));
    assert_eq!(&img[440..446], &[0x78, 0x56, 0x34, 0x12, 0x5A, 0x5A]);
}

#[test]
fn sector_image_of_given_parts() {
    let b = MbrBuilder::new().set_bootcode(&[9, 8, 7]);
    let parts = vec![MbrPhysPart::new(2, 512, 1024, true)];
    let img = sector_image(&b, &parts);
    assert_eq!(&img[0..4], &[9, 8, 7, 0]);
    assert!(img[446..478].iter().all(|&x| x == 0));
    assert_eq!(img[478], 0x80);
    assert_eq!(&img[486..494], &[1, 0, 0, 0, 1, 0, 0, 0]);
}

#[test]
fn compile_rejects_number_beyond_primary_slots() {
    let a = MbrPartSpec::new(vec![PartSpec::Number(NumSpec::Exact(4))]);
    let r = MbrBuilder::new().partition_add(a).compile();
    assert!(matches!(r, Err(MbrBuilderError::NotPrimary(0))));
    let mut b = MbrBuilder::new();
    for _ in 0..5 {
        b = b.partition_add(MbrPartSpec::new(vec![]));
    }
    assert!(matches!(b.compile(), Err(MbrBuilderError::NotPrimary(4))));
}

#[test]
fn compile_rejects_number_cycle() {
    let a = MbrPartSpec::new(vec![PartSpec::Number(NumSpec::AfterPart(PartRef::Next(0)))]);
    let b = MbrPartSpec::new(vec![PartSpec::Number(NumSpec::AfterPart(PartRef::Previous(1)))]);
    let r = MbrBuilder::new().partition_add(a).partition_add(b).compile();
    assert!(matches!(r, Err(MbrBuilderError::UnresolvedReference(0))));
    let a = MbrPartSpec::new(vec![PartSpec::Number(NumSpec::AfterPart(PartRef::Exact(2)))]);
    let r = MbrBuilder::new().partition_add(a).compile();
    assert!(matches!(r, Err(MbrBuilderError::UnresolvedReference(0))));
}

#[test]
fn unnumbered_spec_takes_its_position() {
    let a = MbrPartSpec::new(vec![
        PartSpec::Number(NumSpec::BeforePart(PartRef::Next(0))),
        PartSpec::Start(LocSpec::AtByte(512)),
        PartSpec::End(LocSpec::AtByte(1024)),
    ]);
    let b = MbrPartSpec::new(vec![PartSpec::Start(LocSpec::AtEndOf(PartRef::Previous(1)))]);
    let w = MbrBuilder::new().partition_add(a).partition_add(b).compile().unwrap_or_else(|e| panic!("compile: {:?}", e));
    let parts = w.resolve(GIB).unwrap_or_else(|e| panic!("resolve: {:?}", e));
    assert_eq!(parts[0], MbrPhysPart::new(0, 512, 1024, false));
    assert_eq!(parts[1], MbrPhysPart::new(1, 1024, GIB, false));
}
