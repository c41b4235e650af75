use prismarine_world_lite::bit_array::BitArray;
use prismarine_world_lite::palette::{fits, needed_bits, PaletteContainer};

fn indirect_parts(c: &PaletteContainer) -> (Vec<u32>, usize) {
    match c {
        PaletteContainer::Indirect { palette, data } => (palette.clone(), data.get_bits_per_value()),
        _ => panic!("not indirect"),
    }
}

#[test]
fn needed_bits_values() {
    assert_eq!(needed_bits(0), 1);
    assert_eq!(needed_bits(1), 1);
    assert_eq!(needed_bits(2), 2);
    assert_eq!(needed_bits(15), 4);
    assert_eq!(needed_bits(16), 5);
    assert_eq!(needed_bits(255), 8);
    assert_eq!(needed_bits(256), 9);
    assert_eq!(needed_bits(usize::MAX), 64);
}

#[test]
fn single_to_indirect_promotion() {
    let mut c = PaletteContainer::new_single(0);
    assert!(c.set(100, 5, 15, 8, 4096));
    let (palette, bits) = indirect_parts(&c);
    assert_eq!(palette, vec![0, 5]);
    assert_eq!(bits, 4);
    assert_eq!(c.get(100), 5);
    assert_eq!(c.get(101), 0);
}

#[test]
fn single_same_value_is_noop() {
    let mut c = PaletteContainer::new_single(7);
    assert!(!c.set(3, 7, 15, 8, 4096));
    assert!(matches!(c, PaletteContainer::Single(7)));
    assert_eq!(c.get(4095), 7);
}

#[test]
fn indirect_grows_across_bit_width() {
    let mut c = PaletteContainer::new_single(0);
    for i in 1..16u32 {
        c.set(i as usize, i * 10, 15, 8, 4096);
    }
    let (palette, bits) = indirect_parts(&c);
    assert_eq!(palette.len(), 16);
    assert_eq!(bits, 4);
    assert!(!c.set(16, 160, 15, 8, 4096));
    let (palette, bits) = indirect_parts(&c);
    assert_eq!(palette.len(), 17);
    assert_eq!(bits, 5);
    for i in 1..17u32 {
        assert_eq!(c.get(i as usize), i * 10);
    }
    assert_eq!(c.get(0), 0);
    assert_eq!(c.get(4095), 0);
}

#[test]
fn existing_palette_entry_is_reused() {
    let mut c = PaletteContainer::new_single(0);
    c.set(1, 9, 15, 8, 4096);
    assert!(!c.set(2, 9, 15, 8, 4096));
    assert!(!c.set(1, 0, 15, 8, 4096));
    let (palette, _) = indirect_parts(&c);
    assert_eq!(palette, vec![0, 9]);
    assert_eq!(c.get(1), 0);
    assert_eq!(c.get(2), 9);
}

#[test]
fn indirect_to_direct_on_overflow() {
    let mut c = PaletteContainer::new_single(0);
    for i in 1..256u32 {
        assert_eq!(c.set(i as usize, i + 1000, 15, 8, 4096), i == 1);
    }
    let (palette, bits) = indirect_parts(&c);
    assert_eq!(palette.len(), 256);
    assert_eq!(bits, 8);
    let before: Vec<u32> = (0..4096).map(|p| c.get(p)).collect();
    assert!(c.set(3000, 20000, 15, 8, 4096));
    match &c {
        PaletteContainer::Direct(data) => {
            assert_eq!(data.get_bits_per_value(), 15);
            for p in 0..4096usize {
                if p != 3000 {
                    assert_eq!(data.get(p), before[p]);
                }
            }
            assert_eq!(data.get(3000), 20000);
        }
        _ => panic!("not direct"),
    }
}

#[test]
fn direct_set_and_get() {
    let mut c = PaletteContainer::new_direct(BitArray::new(15, 4096));
    assert!(!c.set(4095, 32767, 15, 8, 4096));
    assert_eq!(c.get(4095), 32767);
    assert_eq!(c.get(0), 0);
}

#[test]
fn biome_container_promotions() {
    let mut c = PaletteContainer::new_single(0);
    assert!(c.set(1, 1, 6, 3, 64));
    let (palette, bits) = indirect_parts(&c);
    assert_eq!(palette, vec![0, 1]);
    assert_eq!(bits, 1);
    assert!(!c.set(2, 2, 6, 3, 64));
    assert_eq!(indirect_parts(&c).1, 2);
    for i in 3..8u32 {
        assert!(!c.set(i as usize, i, 6, 3, 64));
    }
    let (palette, bits) = indirect_parts(&c);
    assert_eq!(palette.len(), 8);
    assert_eq!(bits, 3);
    assert!(c.set(8, 8, 6, 3, 64));
    match &c {
        PaletteContainer::Direct(data) => assert_eq!(data.get_bits_per_value(), 6),
        _ => panic!("not direct"),
    }
    for i in 0..9u32 {
        assert_eq!(c.get(i as usize), i);
    }
    assert_eq!(c.get(63), 0);
}

#[test]
fn fits_checks_width() {
    assert!(fits(0, 0));
    assert!(!fits(1, 0));
    assert!(fits(32767, 15));
    assert!(!fits(32768, 15));
    assert!(fits(u32::MAX, 32));
    assert!(fits(u32::MAX, 64));
}

#[test]
fn accepts_value_by_kind() {
    let single = PaletteContainer::new_single(3);
    assert!(single.accepts_value(u32::MAX, 15, 8, 4096));
    let direct = PaletteContainer::new_direct(BitArray::new(15, 4096));
    assert!(direct.accepts_value(32767, 15, 8, 4096));
    assert!(!direct.accepts_value(32768, 15, 8, 4096));
    let mut indirect = PaletteContainer::new_single(0);
    indirect.set(0, 40000, 15, 8, 4096);
    assert!(indirect.accepts_value(1, 15, 8, 4096));
    assert!(indirect.accepts_value(70000, 15, 8, 4096));
    for i in 1..255u32 {
        indirect.set(i as usize, i, 15, 8, 4096);
    }
    assert_eq!(indirect_parts(&indirect).0.len(), 256);
    assert!(indirect.accepts_value(7, 15, 8, 4096));
    assert!(!indirect.accepts_value(999, 15, 8, 4096));
    assert!(indirect.accepts_value(999, 16, 8, 4096));
    assert!(!indirect.accepts_value(70000, 16, 8, 4096));
}
