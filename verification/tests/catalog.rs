use watermark_remover::catalog::{
    current_48, large_margin_48, legacy_96, new_margin_96, search_configs, WmConfig,
};

#[test]
fn exact_official_3x_1k_prefers_48() {
    let c = search_configs(1024, 1024);
    assert_eq!(c[0], current_48(), "3.x 1k should default to the 48px mark");
    assert!(c.contains(&legacy_96()), "…but still offer the legacy 96px mark");
}

#[test]
fn large_landscape_defaults_to_96_at_64() {
    // 2542×1664 is not official, so the ≥1024 tier default (96px @ 64px
    // margin) must come first.
    let c = search_configs(2542, 1664);
    assert_eq!(c[0], legacy_96());
    assert!(c.contains(&new_margin_96()), "and the 192px-margin variant as a fallback");
}

#[test]
fn small_image_defaults_to_48() {
    let c = search_configs(600, 800);
    assert_eq!(c[0], current_48());
}

#[test]
fn origin_is_bottom_right_anchored() {
    let c = legacy_96();
    assert_eq!(c.origin(2542, 1664), Some((2542 - 64 - 96, 1664 - 64 - 96)));
    assert_eq!(c.origin(160, 160), Some((0, 0)));
    assert_eq!(c.origin(159, 400), None);
    assert_eq!(c.origin(400, 159), None);
    let big = WmConfig { size: 10, margin_right: 1000, margin_bottom: 0 };
    assert_eq!(big.origin(500, 500), None);
}

#[test]
fn exact_official_lists_every_entry_config_then_fallback() {
    assert_eq!(
        search_configs(1024, 1024),
        vec![current_48(), legacy_96(), large_margin_48(), new_margin_96()]
    );
    // 2k tier: only the 96px mark, then the 192px-margin fallback.
    assert_eq!(search_configs(2048, 2048), vec![legacy_96(), new_margin_96()]);
    // 2k new-margin entry puts the 192px-margin variant first.
    assert_eq!(search_configs(2816, 1536), vec![new_margin_96(), legacy_96()]);
    // 0.5k tier: the 48px mark, then the small-tier fallbacks.
    assert_eq!(
        search_configs(512, 512),
        vec![current_48(), large_margin_48(), legacy_96()]
    );
}

#[test]
fn near_official_projections_follow_the_tier_default() {
    // 2542×1664 is within 2% of the 2528×1696 aspect ... and the best-scoring
    // near-official rows are projected onto it.
    assert_eq!(
        search_configs(2542, 1664),
        vec![
            legacy_96(),
            WmConfig { size: 192, margin_right: 130, margin_bottom: 128 },
            new_margin_96(),
        ]
    );
    assert_eq!(
        search_configs(600, 800),
        vec![
            current_48(),
            WmConfig { size: 64, margin_right: 43, margin_bottom: 43 },
            WmConfig { size: 32, margin_right: 21, margin_bottom: 21 },
            large_margin_48(),
            legacy_96(),
        ]
    );
}

#[test]
fn candidates_that_do_not_fit_are_dropped() {
    // 100×100 projects the 512×512 entry down to a 24px mark at the minimum
    // 8px margin; of the fixed marks only the 48px/32px one fits.
    assert_eq!(
        search_configs(100, 100),
        vec![current_48(), WmConfig { size: 24, margin_right: 8, margin_bottom: 8 }]
    );
    // Only the projected mark fits a 60×60 image.
    assert_eq!(search_configs(60, 60), vec![WmConfig { size: 24, margin_right: 8, margin_bottom: 8 }]);
    // Nothing fits a zero-width image.
    assert!(search_configs(0, 500).is_empty());
    assert_eq!(search_configs(1400, 1200), vec![legacy_96(), new_margin_96()]);
}

#[test]
fn every_candidate_fits_and_none_repeats() {
    for &(w, h) in &[(1024usize, 1024usize), (2542, 1664), (600, 800), (1400, 1200), (4096, 4096), (300, 2000)] {
        let c = search_configs(w, h);
        for (i, a) in c.iter().enumerate() {
            assert!(a.origin(w, h).is_some());
            for b in &c[i + 1..] {
                assert_ne!(a, b);
            }
        }
    }
}

#[test]
fn fixed_candidates_stay_in_the_tile_tier() {
    // Large, not official: every candidate is a tile of at least 96px.
    for c in search_configs(1400, 1200) {
        assert_eq!(c.size, 96);
    }
    for &(w, h) in &[(1030usize, 1030usize), (2542, 1664), (1100, 1500), (5000, 5000), (1024, 1100)] {
        let c = search_configs(w, h);
        assert_eq!(c[0], legacy_96());
        assert!(c.iter().all(|x| x.size >= 96), "{w}x{h}: {c:?}");
    }
    // Small, not official: apart from the two projections, 48px tiles and the
    // 96px/64px fallback.
    let c = search_configs(600, 800);
    let projected = [
        WmConfig { size: 64, margin_right: 43, margin_bottom: 43 },
        WmConfig { size: 32, margin_right: 21, margin_bottom: 21 },
    ];
    for x in c.iter().filter(|x| !projected.contains(x)) {
        assert!(x.size == 48 || *x == legacy_96());
    }
}

#[test]
fn large_near_square_keeps_only_96px_tier_projections() {
    // 1030×1030 is near the square official sizes. The 3.x 1k, 2k and 4k rows
    // project to 48px and 24px tiles, which a ≥1024px image leaves out; the
    // 2.5 Flash 1k row's 96px mark projects to a 97px tile, which stays.
    assert_eq!(
        search_configs(1030, 1030),
        vec![
            legacy_96(),
            WmConfig { size: 97, margin_right: 64, margin_bottom: 64 },
            new_margin_96(),
        ]
    );
}
