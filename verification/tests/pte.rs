//! Page table entries.
use rustos::mm::pmap::pte::{
    encode_pte, map_perm_to_pte_flags, pte_flags, pte_is_leaf, pte_is_valid, pte_pa, PteFlags,
};
use rustos::mm::vm::map::perm::MapPerm;

#[test]
fn encode_decode_roundtrip() {
    let pa = 0x8020_0000u64;
    let flags = PteFlags::V() | PteFlags::R() | PteFlags::W() | PteFlags::A() | PteFlags::D();
    let raw = encode_pte(pa, flags);
    assert_eq!(pte_pa(raw), pa);
    assert_eq!(pte_flags(raw), flags);
}

#[test]
fn encode_decode_all_flags() {
    let pa = 0x1000u64;
    let flags = PteFlags::all();
    let raw = encode_pte(pa, flags);
    assert_eq!(pte_pa(raw), pa);
    assert_eq!(pte_flags(raw), flags);
}

#[test]
fn zero_pa() {
    let raw = encode_pte(0, PteFlags::V());
    assert_eq!(pte_pa(raw), 0);
    assert!(pte_is_valid(raw));
    assert!(!pte_is_leaf(raw));
}

#[test]
fn leaf_detection() {
    let non_leaf = encode_pte(0x1000, PteFlags::V());
    assert!(!pte_is_leaf(non_leaf));

    let leaf_r = encode_pte(0x1000, PteFlags::V() | PteFlags::R());
    assert!(pte_is_leaf(leaf_r));

    let leaf_x = encode_pte(0x1000, PteFlags::V() | PteFlags::X());
    assert!(pte_is_leaf(leaf_x));

    let leaf_rwx = encode_pte(
        0x1000,
        PteFlags::V() | PteFlags::R() | PteFlags::W() | PteFlags::X(),
    );
    assert!(pte_is_leaf(leaf_rwx));
}

#[test]
fn invalid_pte() {
    assert!(!pte_is_valid(0));
    assert!(!pte_is_leaf(0));
    assert_eq!(pte_pa(0), 0);
}

#[test]
fn sw_bits_preserved() {
    let pa = 0x4000u64;
    let flags = PteFlags::V() | PteFlags::R() | PteFlags::SW_WIRED() | PteFlags::SW_MANAGED();
    let raw = encode_pte(pa, flags);
    let extracted = pte_flags(raw);
    assert!(extracted.contains(PteFlags::SW_WIRED()));
    assert!(extracted.contains(PteFlags::SW_MANAGED()));
}

#[test]
fn map_perm_conversion() {
    let perm = MapPerm::R() | MapPerm::W();
    let flags = map_perm_to_pte_flags(perm);
    assert!(flags.contains(PteFlags::V()));
    assert!(flags.contains(PteFlags::R()));
    assert!(flags.contains(PteFlags::W()));
    assert!(flags.contains(PteFlags::A()));
    assert!(flags.contains(PteFlags::D()));
    assert!(!flags.contains(PteFlags::X()));
    assert!(!flags.contains(PteFlags::U()));
}

#[test]
fn map_perm_user_exec() {
    let perm = MapPerm::R() | MapPerm::X() | MapPerm::U();
    let flags = map_perm_to_pte_flags(perm);
    assert!(flags.contains(PteFlags::R()));
    assert!(flags.contains(PteFlags::X()));
    assert!(flags.contains(PteFlags::U()));
    assert!(!flags.contains(PteFlags::W()));
}

#[test]
fn large_pa_roundtrip() {
    let pa = 0x1_0000_0000u64;
    let flags = PteFlags::V() | PteFlags::R();
    let raw = encode_pte(pa, flags);
    assert_eq!(pte_pa(raw), pa);
}

#[test]
fn an_entry_is_the_page_number_behind_ten_flags() {
    assert_eq!(encode_pte(0x8020_0000, PteFlags::V()), (0x8020_0000 >> 12 << 10) | 1);
}
