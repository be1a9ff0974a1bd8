use capglyph::carrier::{to_cli_placement, to_core_placement};
use capglyph::cli::{parse_mode, EmbedMode, ModeError, PlacementStrategy};
use capglyph::placement::Placement;
use capglyph::prng::{fnv1a_hash, lcg_next, position_from_state, prng_band_positions, seed_from_pixels, LCG_INC};
use capglyph::c2pa::{signature_status, C2paReport};
use capglyph::registration::TranslationRegistration;

#[test]
fn mode_names() {
    assert_eq!(parse_mode("dct"), Ok(EmbedMode::Dct));
    assert_eq!(parse_mode("alpha"), Ok(EmbedMode::Alpha));
    assert_eq!(parse_mode("dwt"), Ok(EmbedMode::Dwt));
    assert_eq!(parse_mode("learned"), Err(ModeError::LearnedUnsupported));
    assert_eq!(parse_mode("bogus"), Err(ModeError::Unknown));
    assert_eq!(EmbedMode::Dwt.name(), "dwt");
}

#[test]
fn placement_conversions() {
    for p in [PlacementStrategy::Skeleton, PlacementStrategy::Prng, PlacementStrategy::Edge] {
        assert_eq!(to_cli_placement(&to_core_placement(&p)), p);
    }
    assert_eq!(to_core_placement(&PlacementStrategy::Edge), Placement::Edge);
    assert_eq!(Placement::Prng.name(), "prng");
}

#[test]
fn fnv_and_lcg_values() {
    assert_eq!(fnv1a_hash(&[]), 0xcbf29ce484222325);
    assert_eq!(fnv1a_hash(b"a"), 0xaf63dc4c8601ec8c);
    assert_eq!(lcg_next(0), LCG_INC);
    assert_eq!(lcg_next(1), 6364136223846793005u64.wrapping_add(1442695040888963407));
    let raw = vec![5u8; 5000];
    assert_eq!(seed_from_pixels(&raw), fnv1a_hash(&raw[..4096]));
}

#[test]
fn lcg_state_positions() {
    assert_eq!(position_from_state(0x0000_0007_0000_0009, 5, 4), (2, 1));
}

#[test]
fn report_and_registration_defaults() {
    let r = C2paReport::unsigned();
    assert!(!r.present);
    assert_eq!(r.signature_status, "unsigned");
    assert_eq!(TranslationRegistration::default().max_shift, 32);
}

fn reference_band_positions(seed: u64, w: u32, h: u32, count: usize) -> Vec<(u32, u32)> {
    let mut set = std::collections::HashSet::new();
    let mut state = seed;
    while set.len() < count {
        state = state.wrapping_mul(6364136223846793005).wrapping_add(1442695040888963407);
        set.insert((((state >> 32) as u32) % w, (state as u32) % h));
    }
    let mut list: Vec<(u32, u32)> = set.into_iter().collect();
    list.sort_unstable();
    list
}

#[test]
fn band_positions_match_reference() {
    for (seed, w, h, count) in [(1u64, 64u32, 64u32, 100usize), (42, 7, 5, 35), (9, 256, 128, 500)] {
        assert_eq!(prng_band_positions(seed, w, h, count), reference_band_positions(seed, w, h, count));
    }
    assert!(prng_band_positions(3, 0, 10, 5).is_empty());
    assert!(prng_band_positions(3, 10, 10, 0).is_empty());
}

fn reference_target(total_blocks: u32) -> u32 {
    ((total_blocks as f64 * 0.05).round() as u32).max(32).min(total_blocks)
}

#[test]
fn block_target_matches_five_percent_rounding() {
    for total in (0u32..5000).chain([u32::MAX, u32::MAX - 10, 1_000_010, 123_456_789]) {
        assert_eq!(capglyph::prng::target_block_count(total), reference_target(total), "total {total}");
    }
    assert_eq!(capglyph::prng::target_block_count(10), 10);
    assert_eq!(capglyph::prng::target_block_count(1000), 50);
    assert_eq!(capglyph::prng::target_block_count(1010), 51);
}

#[test]
fn prng_blocks_match_reference_set() {
    for (seed, iw, ih) in [(7u64, 512u32, 512u32), (0xfeed, 100, 60), (1, 7, 900)] {
        let (bw, bh) = (iw / 8, ih / 8);
        let expected = if bw == 0 || bh == 0 {
            Vec::new()
        } else {
            reference_band_positions(seed, bw, bh, reference_target(bw * bh) as usize)
        };
        assert_eq!(capglyph::prng::prng_blocks_from_seed(seed, iw, ih), expected);
    }
}

#[test]
fn c2pa_signature_status_rules() {
    let s = |v: &[&str]| v.iter().map(|x| x.to_string()).collect::<Vec<String>>();
    assert_eq!(signature_status(&s(&[]), &s(&["claimSignature.validated"])), "valid");
    assert_eq!(signature_status(&s(&["claimSignature.mismatch"]), &s(&["claimSignature.validated"])), "invalid");
    assert_eq!(signature_status(&s(&["other", "claimSignature.missing"]), &s(&[])), "invalid");
    assert_eq!(signature_status(&s(&["other"]), &s(&["timeStamp.validated"])), "invalid");
}
