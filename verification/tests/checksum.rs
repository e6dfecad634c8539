use l4::checksum::csum_replace;

/// The checksum of a list of 16-bit words, computed from scratch.
fn full_checksum(words: &[u16]) -> u16 {
    let mut sum: u32 = words.iter().map(|&w| u32::from(w)).sum();
    while sum > 0xFFFF {
        sum = (sum & 0xFFFF) + (sum >> 16);
    }
    !(sum as u16)
}

#[test]
fn golden_values() {
    // The example of RFC 1624, section 4.
    assert_eq!(csum_replace(0xDD2F, 0x5555, 0x3285), 0x0000);
    assert_eq!(csum_replace(0xB1E6, 0x0A00, 0xAC12), 0x0FD4);
    assert_eq!(csum_replace(0x1234, 0xABCD, 0xABCD), 0x1234);
    assert_eq!(csum_replace(0, 0, 0), 0);
    assert_eq!(csum_replace(0xFFFF, 0, 0), 0);
    assert_eq!(csum_replace(0xFFFF, 0xFFFF, 0xFFFF), 0);
    assert_eq!(csum_replace(0xFFFF, 0xFFFF, 0), 0xFFFF);
}

#[test]
fn update_equals_recomputation() {
    let mut words: Vec<u16> = vec![0x4500, 0x0073, 0x0000, 0x4000, 0x4011, 0xC0A8, 0x0001, 0xC0A8, 0x00C7];
    let before = full_checksum(&words);
    assert_eq!(before, 0xB861);
    for new in [0x0A00u16, 0xFFFF, 0x0001, 0xC0A8] {
        let old = words[7];
        words[7] = new;
        let updated = csum_replace(before, old, new);
        assert_eq!(updated, full_checksum(&words));
        words[7] = old;
    }
}

#[test]
fn residue_is_kept() {
    for hc in [0u16, 1, 0x7FFF, 0xFFFE, 0xFFFF] {
        for old in [0u16, 2, 0x8000, 0xFFFF] {
            for new in [0u16, 3, 0x8001, 0xFFFF] {
                let updated = u32::from(csum_replace(hc, old, new));
                assert_eq!((updated + u32::from(new)) % 0xFFFF, (u32::from(hc) + u32::from(old)) % 0xFFFF);
            }
        }
    }
}
