use goose::arch::riscv64::sv39::{PAddr, VAddr};
use goose::mm;

#[test]
fn virtual_address_low_half_is_kept() {
    assert_eq!(VAddr::from_u64(0x1042).as_u64(), 0x1042);
    assert_eq!(VAddr::from_u64(0x3f_ffff_ffff).as_u64(), 0x3f_ffff_ffff);
    assert_eq!(VAddr::from_u64(0x8000_0000).as_u64(), 0x8000_0000);
}

#[test]
fn virtual_address_bit_38_is_extended() {
    assert_eq!(VAddr::from_u64(0x40_0000_0000).as_u64(), 0xffff_ffc0_0000_0000);
    assert_eq!(VAddr::from_u64(0x7f_ffff_ffff).as_u64(), 0xffff_ffff_ffff_ffff);
    assert_eq!(
        VAddr::from_u64(0x1234_5678_9abc_def0).as_u64(),
        0xffff_fff8_9abc_def0
    );
}

#[test]
fn virtual_address_high_bits_are_dropped_when_bit_38_is_clear() {
    assert_eq!(
        VAddr::from_u64(0xffff_ff80_0000_1000).as_u64(),
        0x0000_0000_0000_1000
    );
}

#[test]
fn virtual_canonicalization_is_idempotent() {
    for addr in [
        0u64,
        0x1042,
        0x40_0000_0000,
        0x1234_5678_9abc_def0,
        0xffff_ffff_ffff_ffff,
        0x8000_0000_0000_0000,
        0x0000_0080_0000_0000,
    ] {
        let once = VAddr::from_u64(addr).as_u64();
        let twice = VAddr::from_u64(once).as_u64();
        assert_eq!(once, twice);
    }
}

#[test]
fn virtual_page_number_fields() {
    let va = VAddr::from_u64(0x4000_1042);
    assert_eq!(va.vpn(0), 1);
    assert_eq!(va.vpn(1), 0);
    assert_eq!(va.vpn(2), 1);
    let high = VAddr::from_u64(0xffff_ffe3_4567_8000);
    assert_eq!(high.vpn(0), 120);
    assert_eq!(high.vpn(1), 43);
    assert_eq!(high.vpn(2), 397);
}

#[test]
fn virtual_address_from_kernel_address() {
    let va = VAddr::from(mm::VAddr::from(0x40_0000_1000usize));
    assert_eq!(va.as_u64(), 0xffff_ffc0_0000_1000);
}

#[test]
fn physical_address_low_is_kept() {
    assert_eq!(PAddr::from_u64(0x1042).as_u64(), 0x1042);
    assert_eq!(PAddr::from_u64(0x8000_0000).as_u64(), 0x8000_0000);
    assert_eq!(PAddr::from_u64(0x3f_ffff_ffff).as_u64(), 0x3f_ffff_ffff);
}

#[test]
fn physical_address_bits_above_55_repeat_bit_55() {
    assert_eq!(
        PAddr::from_u64(0x0080_0000_0000_0000).as_u64(),
        0xff80_0000_0000_0000
    );
    assert_eq!(
        PAddr::from_u64(0x00ff_ffff_ffff_ffff).as_u64(),
        0xffff_ffff_ffff_ffff
    );
    assert_eq!(
        PAddr::from_u64(0x40_0000_0000).as_u64(),
        0x40_0000_0000
    );
    assert_eq!(
        PAddr::from_u64(0x1234_5678_9abc_def0).as_u64(),
        0x0034_5678_9abc_def0
    );
    assert_eq!(
        PAddr::from_u64(0xff00_0000_0000_1000).as_u64(),
        0x0000_0000_0000_1000
    );
    assert_eq!(
        PAddr::from_u64(0x0070_0000_0000_1000).as_u64(),
        0x0070_0000_0000_1000
    );
}

#[test]
fn physical_canonicalization_is_idempotent() {
    for addr in [
        0u64,
        0x8020_0000,
        0x40_0000_0000,
        0x1234_5678_9abc_def0,
        0xffff_ffff_ffff_ffff,
        0xff00_0000_0000_1000,
        0x0080_0000_0000_0000,
    ] {
        let once = PAddr::from_u64(addr).as_u64();
        let twice = PAddr::from_u64(once).as_u64();
        assert_eq!(once, twice);
    }
}

#[test]
fn kernel_addresses_convert_both_ways() {
    let va = mm::VAddr::from(0x1234usize);
    assert_eq!(usize::from(va), 0x1234);
    let pa = mm::PAddr::from(0x5678usize);
    assert_eq!(usize::from(pa), 0x5678);
}
