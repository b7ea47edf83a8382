//! End-to-end and component tests for the bar-graph analysis pipeline.
//! All intensities are micro-units: 1_000_000 is the real value 1.0.

use audiobars::{
    atan2_deg, chroma_index_to_note, dominant_frequency,
    frequency_to_harmonic_product_spectrum, frequency_to_pitch_spectrum,
    get_n_largest_indices, hsv_to_rgb, normalise_bars, normalise_chromagram,
    pitch_spectrum_to_chromagram, Bars, ChromagramColour, ColourMapper, GroupingStrategy, Rgba,
    SmoothingStrategy, StaticColour, VisualiserBuilder, VizError, SCALE,
};

fn log_music_ranges(num_bars: usize) -> Vec<(usize, usize)> {
    GroupingStrategy::LogMean.create_ranges(num_bars, 44100, 2048)
}

#[test]
fn log_ranges_count_matches_request() {
    for &n in &[1usize, 2, 6, 24, 64, 128] {
        let ranges = log_music_ranges(n);
        assert_eq!(ranges.len(), n);
    }
}

#[test]
fn log_ranges_are_ordered_and_nonempty() {
    let ranges = log_music_ranges(24);
    let mut prev_end = 0usize;
    for &(start, end) in &ranges {
        assert!(start < end, "every range spans at least one bin");
        assert!(start >= prev_end, "ranges must not overlap and starts must not decrease");
        prev_end = end;
    }
}

#[test]
fn gamma_ranges_partition_the_spectrum() {
    let strategy = GroupingStrategy::GammaCorrected { gamma: 2_000_000 };
    let ranges = strategy.create_ranges(8, 44100, 64);
    assert!(!ranges.is_empty());
    assert_eq!(ranges[0].0, 0);
    assert_eq!(ranges.last().unwrap().1, 32);
    for w in ranges.windows(2) {
        assert_eq!(w[0].1, w[1].0, "gamma ranges are contiguous");
    }
    for &(start, end) in &ranges {
        assert!(start < end);
    }
}

#[test]
fn mean_reduction_is_log2_of_mean_plus_one() {
    // One range over a single bin of 3.0: log2(3 + 1) = 2.0 exactly.
    let spectrum: Vec<u64> = vec![3 * SCALE];
    let ranges: Vec<(usize, usize)> = vec![(0, 1)];
    let bars = GroupingStrategy::LogMean
        .spectrum_to_bars(&spectrum, &ranges)
        .unwrap();
    assert_eq!(bars, vec![2 * SCALE]);

    // Mean of 1.0 and 5.0 is 3.0: again exactly 2.0.
    let spectrum: Vec<u64> = vec![SCALE, 5 * SCALE];
    let ranges: Vec<(usize, usize)> = vec![(0, 2)];
    let bars = GroupingStrategy::LogMean
        .spectrum_to_bars(&spectrum, &ranges)
        .unwrap();
    assert_eq!(bars, vec![2 * SCALE]);
}

#[test]
fn max_reduction_is_log2_of_max_plus_one() {
    // Max of 1.0 and 7.0 is 7.0: log2(8) = 3.0 exactly.
    let spectrum: Vec<u64> = vec![SCALE, 7 * SCALE];
    let ranges: Vec<(usize, usize)> = vec![(0, 2)];
    let bars = GroupingStrategy::LogMax
        .spectrum_to_bars(&spectrum, &ranges)
        .unwrap();
    assert_eq!(bars, vec![3 * SCALE]);
}

#[test]
fn silent_range_reduces_to_zero() {
    // log2(0 + 1) = 0: a silent range gives a zero bar.
    let spectrum: Vec<u64> = vec![0, 0, 0];
    let ranges: Vec<(usize, usize)> = vec![(0, 3)];
    let bars = GroupingStrategy::LogMean
        .spectrum_to_bars(&spectrum, &ranges)
        .unwrap();
    assert_eq!(bars, vec![0]);
}

#[test]
fn no_grouping_passes_the_spectrum_through() {
    let spectrum: Vec<u64> = vec![1, 2, 3, 4];
    let bars = GroupingStrategy::NoGrouping
        .spectrum_to_bars(&spectrum, &Vec::new())
        .unwrap();
    assert_eq!(bars, spectrum);
}

#[test]
fn empty_range_is_rejected() {
    let spectrum: Vec<u64> = vec![SCALE, SCALE];
    let ranges: Vec<(usize, usize)> = vec![(1, 1)];
    let r = GroupingStrategy::LogMean.spectrum_to_bars(&spectrum, &ranges);
    assert_eq!(r, Err(VizError::EmptyRange));
}

#[test]
fn out_of_bounds_range_is_a_spectrum_mismatch() {
    let spectrum: Vec<u64> = vec![SCALE, SCALE];
    let ranges: Vec<(usize, usize)> = vec![(0, 3)];
    let r = GroupingStrategy::LogMean.spectrum_to_bars(&spectrum, &ranges);
    assert_eq!(r, Err(VizError::SpectrumMismatch));
}

#[test]
fn smoother_release_branch_blends_exactly() {
    // rise = 0.5, fall = 0.9; stored 0.8, current 0.2 < 0.8, so the release
    // branch gives 0.8*0.9 + 0.2*0.1 = 0.74 exactly.
    let smoothing = SmoothingStrategy::RiseFall { rise: 500_000, fall: 900_000 };
    let mut previous: Vec<u64> = vec![800_000];
    let current: Vec<u64> = vec![200_000];
    smoothing.smooth(&mut previous, &current);
    assert_eq!(previous, vec![740_000]);
}

#[test]
fn smoother_attack_branch_blends_exactly() {
    // stored 0.2, current 0.8 > 0.2: attack gives 0.2*0.5 + 0.8*0.5 = 0.5.
    let smoothing = SmoothingStrategy::RiseFall { rise: 500_000, fall: 900_000 };
    let mut previous: Vec<u64> = vec![200_000];
    let current: Vec<u64> = vec![800_000];
    smoothing.smooth(&mut previous, &current);
    assert_eq!(previous, vec![500_000]);
}

#[test]
fn smoother_off_overwrites() {
    let smoothing = SmoothingStrategy::Off;
    let mut previous: Vec<u64> = vec![800_000, 100_000];
    let current: Vec<u64> = vec![200_000, 300_000];
    smoothing.smooth(&mut previous, &current);
    assert_eq!(previous, current);
}

#[test]
fn first_update_stores_bars_directly() {
    // NoGrouping over a one-bin spectrum: the very first frame must land in
    // the bar store unblended, not ramped up from zero.
    let mut v = VisualiserBuilder::new()
        .with_grouping(GroupingStrategy::NoGrouping)
        .with_smoothing(SmoothingStrategy::RiseFall { rise: 500_000, fall: 900_000 })
        .build(44100, 2)
        .unwrap();
    v.update(&vec![800_000]).unwrap();
    assert_eq!(v.bars_to_display, vec![800_000]);
    // The second frame blends: 0.2 < 0.8 takes the release branch, 0.74.
    v.update(&vec![200_000]).unwrap();
    assert_eq!(v.bars_to_display, vec![740_000]);
}

#[test]
fn update_rejects_a_resized_spectrum() {
    let mut v = VisualiserBuilder::new()
        .with_grouping(GroupingStrategy::NoGrouping)
        .build(44100, 8)
        .unwrap();
    // fft_size 8 means 4 bars; a 3-bin spectrum is a stale-configuration
    // frame and must be skipped, leaving state untouched.
    let before = v.bars_to_display.clone();
    let r = v.update(&vec![SCALE, SCALE, SCALE]);
    assert_eq!(r, Err(VizError::SpectrumMismatch));
    assert_eq!(v.bars_to_display, before);
}

#[test]
fn chromagram_folds_octaves_into_one_class() {
    // 1.0 at pitch 60 and 1.0 at pitch 72, both pitch class C.
    let mut pitches: Vec<u64> = vec![0; 128];
    pitches[60] = SCALE;
    pitches[72] = SCALE;
    let chroma = pitch_spectrum_to_chromagram(&pitches);
    assert_eq!(chroma.len(), 12);
    assert_eq!(chroma[0], 2 * SCALE);
    for c in 1..12 {
        assert_eq!(chroma[c], 0);
    }
    // Normalized, class C carries everything: exactly 1.0.
    let norm = normalise_chromagram(&chroma);
    assert_eq!(norm[0], SCALE);
    for c in 1..12 {
        assert_eq!(norm[c], 0);
    }
}

#[test]
fn all_zero_chromagram_normalises_to_zero() {
    let chroma: Vec<u64> = vec![0; 12];
    assert_eq!(normalise_chromagram(&chroma), vec![0; 12]);
}

#[test]
fn harmonic_product_spectrum_with_two_downsamples() {
    // [1, 2, 3, 4, 5, 6] with D = 2: output length 3;
    // out[0] = s[0]*s[0], out[1] = s[1]*s[2], out[2] = s[2]*s[4].
    let spectrum: Vec<u64> = vec![SCALE, 2 * SCALE, 3 * SCALE, 4 * SCALE, 5 * SCALE, 6 * SCALE];
    let out = frequency_to_harmonic_product_spectrum(&spectrum, 2);
    assert_eq!(out, vec![SCALE, 6 * SCALE, 15 * SCALE]);
}

#[test]
fn harmonic_product_spectrum_identity_below_two() {
    let spectrum: Vec<u64> = vec![SCALE, 2 * SCALE, 3 * SCALE];
    assert_eq!(frequency_to_harmonic_product_spectrum(&spectrum, 1), spectrum);
    assert_eq!(frequency_to_harmonic_product_spectrum(&spectrum, 0), spectrum);
}

#[test]
fn silence_normalises_to_zero_bars() {
    // Total silence: the epsilon floor keeps every bar at zero.
    let bars: Vec<u64> = vec![0, 0, 0];
    assert_eq!(normalise_bars(&bars), vec![0, 0, 0]);
}

#[test]
fn normalisation_scales_by_the_frame_maximum() {
    let bars: Vec<u64> = vec![2 * SCALE, SCALE, 500_000];
    assert_eq!(normalise_bars(&bars), vec![SCALE, 500_000, 250_000]);
}

#[test]
fn top_indices_are_sorted_by_value() {
    let items: Vec<u64> = vec![5, 1, 9, 9, 3];
    // Ties select the earliest index first.
    assert_eq!(get_n_largest_indices(&items, 2), vec![2, 3]);
    assert_eq!(get_n_largest_indices(&items, 3), vec![2, 3, 0]);
}

#[test]
fn top_indices_use_sentinel_for_silence() {
    let items: Vec<u64> = vec![0, 0];
    // No positive value remains: slots hold the sentinel, items.len().
    assert_eq!(get_n_largest_indices(&items, 2), vec![2, 2]);
    let items: Vec<u64> = vec![0, 4, 0];
    assert_eq!(get_n_largest_indices(&items, 2), vec![1, 3]);
}

#[test]
fn note_names_cover_all_classes() {
    let names = [
        "C", "C#/Db", "D", "D#/Eb", "E", "F", "F#/Gb", "G", "G#/Ab", "A", "A#/Bb", "B",
    ];
    for (i, n) in names.iter().enumerate() {
        assert_eq!(chroma_index_to_note(i), *n);
    }
    assert_eq!(chroma_index_to_note(12), "UNK");
    assert_eq!(chroma_index_to_note(128), "UNK");
}

#[test]
fn bars_report_their_count() {
    assert_eq!(Bars::Normal { num_bars: 24 }.num_bars(), 24);
    assert_eq!(Bars::LeftMirrored { num_bars: 7 }.num_bars(), 7);
    assert_eq!(Bars::RightMirrored { num_bars: 0 }.num_bars(), 0);
}

#[test]
fn build_rejects_zero_bar_count() {
    let r = VisualiserBuilder::new().with_num_bars(0).build(44100, 2048);
    assert_eq!(r.err(), Some(VizError::ZeroBarCount));
}

#[test]
fn build_rejects_zero_gamma() {
    let r = VisualiserBuilder::new()
        .with_grouping(GroupingStrategy::GammaCorrected { gamma: 0 })
        .build(44100, 2048);
    assert_eq!(r.err(), Some(VizError::InvalidGamma));
}

#[test]
fn build_rejects_overlarge_smoothing() {
    let r = VisualiserBuilder::new()
        .with_smoothing(SmoothingStrategy::RiseFall { rise: SCALE + 1, fall: 900_000 })
        .build(44100, 2048);
    assert_eq!(r.err(), Some(VizError::InvalidSmoothing));
}

#[test]
fn error_taxonomy_partitions() {
    let config = [
        VizError::ZeroBarCount,
        VizError::InvalidGamma,
        VizError::InvalidSmoothing,
        VizError::EmptyRange,
    ];
    for e in config {
        assert!(e.is_configuration());
        assert!(!e.is_transient());
    }
    assert!(VizError::SpectrumMismatch.is_transient());
    assert!(!VizError::SpectrumMismatch.is_configuration());
}

#[test]
fn static_colour_ignores_the_spectrum() {
    let red = Rgba { r: SCALE, g: 0, b: 0, a: SCALE };
    let mut mapper = ColourMapper::Static(StaticColour::new(red));
    let c = mapper.get_colour(&vec![SCALE, 0, SCALE, 0], 44100);
    assert_eq!(c, red);
}

#[test]
fn single_class_chroma_yields_hue_zero() {
    // Energy near 258.4 Hz rounds to MIDI pitch 60 (class C, hue 0): the
    // instantaneous hue vector points along the positive x axis, so the
    // displayed colour must be pure red — hue exactly 0.
    let mut spectrum: Vec<u64> = vec![0; 1024];
    spectrum[12] = SCALE;
    let mut cc = ChromagramColour::new(0);
    let c = cc.get_colour(&spectrum, 44100);
    assert_eq!(c, Rgba { r: SCALE, g: 0, b: 0, a: SCALE });
}

#[test]
fn opposite_hues_cancel_to_the_default() {
    // A hue vector whose positive and negative x parts cancel is the
    // degenerate case: the defined default hue 0 (red), not an arbitrary
    // in-between hue.
    let mut cc = ChromagramColour {
        hue_x_pos: 7 * SCALE,
        hue_x_neg: 7 * SCALE,
        hue_y_pos: 0,
        hue_y_neg: 0,
        smoothing_factor: SCALE,
        smoothed_chromagram: vec![0; 12],
    };
    // smoothing_factor 1.0 keeps the persistent vector; silence adds nothing.
    let c = cc.get_colour(&vec![0; 16], 44100);
    assert_eq!(c, Rgba { r: SCALE, g: 0, b: 0, a: SCALE });
}

#[test]
fn persistent_x_axis_vector_stays_red() {
    let mut cc = ChromagramColour {
        hue_x_pos: 5 * SCALE,
        hue_x_neg: 0,
        hue_y_pos: 0,
        hue_y_neg: 0,
        smoothing_factor: SCALE,
        smoothed_chromagram: vec![0; 12],
    };
    let c = cc.get_colour(&vec![0; 16], 44100);
    assert_eq!(c, Rgba { r: SCALE, g: 0, b: 0, a: SCALE });
}

#[test]
fn pitch_spectrum_keeps_only_the_window() {
    // 258.4 Hz rounds to pitch 60; everything lands inside [40, 84].
    let mut spectrum: Vec<u64> = vec![0; 1024];
    spectrum[12] = 3 * SCALE;
    let pitches = frequency_to_pitch_spectrum(&spectrum, 44100);
    assert_eq!(pitches.len(), 128);
    assert_eq!(pitches[60], 3 * SCALE);
    let total: u64 = pitches.iter().sum();
    assert_eq!(total, 3 * SCALE, "no other slot may receive energy");
    // Bin 0 (0 Hz) and bin 1 (21.5 Hz) are far below pitch 40 and ignored.
    let mut low: Vec<u64> = vec![0; 1024];
    low[1] = SCALE;
    let pitches = frequency_to_pitch_spectrum(&low, 44100);
    assert!(pitches.iter().all(|&v| v == 0));
}

#[test]
fn dominant_frequency_skips_rumble() {
    // sr 1000, fft 100: bins are 10 Hz apart, the cutoff is bin 8 (80 Hz).
    // The global maximum sits below the cutoff and must be ignored.
    let mut hps: Vec<u64> = vec![0; 20];
    hps[3] = 9 * SCALE;
    hps[10] = 5 * SCALE;
    let f = dominant_frequency(&hps, 1000, 100);
    assert_eq!(f, 100 * SCALE, "bin 10 of 10 Hz spacing is 100 Hz");
}

#[test]
fn full_update_produces_normalised_bars() {
    let mut v = VisualiserBuilder::new()
        .with_grouping(GroupingStrategy::LogMean)
        .with_num_bars(16)
        .build(44100, 256)
        .unwrap();
    let spectrum: Vec<u64> = (0..128).map(|i| (i as u64) * 10_000).collect();
    let (bars, colour) = v.update(&spectrum).unwrap();
    assert_eq!(bars.len(), 16);
    assert!(bars.iter().all(|&b| b <= SCALE));
    assert!(bars.iter().any(|&b| b == SCALE), "the loudest bar reaches exactly 1.0");
    assert_eq!(colour, Rgba { r: SCALE, g: SCALE, b: SCALE, a: SCALE });
}

#[test]
fn chroma_display_reports_top_three() {
    let mut v = VisualiserBuilder::new()
        .with_grouping(GroupingStrategy::NoGrouping)
        .build(44100, 2048)
        .unwrap();
    let mut spectrum: Vec<u64> = vec![0; 1024];
    spectrum[12] = SCALE; // pitch 60, class C
    let (chroma, top) = v.chroma_display(&spectrum);
    assert_eq!(chroma.len(), 12);
    assert_eq!(top.len(), 3);
    assert_eq!(top[0], 0, "class C dominates");
    assert_eq!(chroma_index_to_note(top[0]), "C");
    // Only one class is active: the remaining slots hold the sentinel.
    assert_eq!(top[1], 12);
    assert_eq!(top[2], 12);
}

#[test]
fn pitch_display_has_all_midi_slots() {
    let v = VisualiserBuilder::new()
        .with_grouping(GroupingStrategy::NoGrouping)
        .build(44100, 2048)
        .unwrap();
    let mut spectrum: Vec<u64> = vec![0; 1024];
    spectrum[12] = 2 * SCALE;
    let pitches = v.pitch_display(&spectrum);
    assert_eq!(pitches.len(), 128);
    // The input is normalized by its maximum first, so the slot holds 1.0.
    assert_eq!(pitches[60], SCALE);
}

#[test]
fn atan2_is_exact_on_the_axes() {
    assert_eq!(atan2_deg(0, 0, 0, 0), 0, "zero vector defaults to hue 0");
    assert_eq!(atan2_deg(5, 0, 0, 0), 0);
    assert_eq!(atan2_deg(0, 0, 5, 0), 90 * SCALE);
    assert_eq!(atan2_deg(0, 5, 0, 0), 180 * SCALE);
    assert_eq!(atan2_deg(0, 0, 0, 5), 270 * SCALE);
    assert_eq!(atan2_deg(7, 7, 0, 0), 0, "cancelled parts are the zero vector");
}

#[test]
fn atan2_is_exact_on_the_diagonal() {
    assert_eq!(atan2_deg(3, 0, 3, 0), 45 * SCALE);
}

#[test]
fn hsv_primary_sectors_are_exact() {
    assert_eq!(hsv_to_rgb(0, SCALE, SCALE), (SCALE, 0, 0), "hue 0 is red");
    assert_eq!(hsv_to_rgb(60 * SCALE, SCALE, SCALE), (SCALE, SCALE, 0), "hue 60 is yellow");
    assert_eq!(hsv_to_rgb(120 * SCALE, SCALE, SCALE), (0, SCALE, 0), "hue 120 is green");
    assert_eq!(hsv_to_rgb(240 * SCALE, SCALE, SCALE), (0, 0, SCALE), "hue 240 is blue");
    // Zero saturation washes every hue out to plain value.
    assert_eq!(hsv_to_rgb(200 * SCALE, 0, SCALE), (SCALE, SCALE, SCALE));
}

#[test]
fn update_with_chromagram_colour_tracks_a_single_class() {
    let mut v = VisualiserBuilder::new()
        .with_grouping(GroupingStrategy::NoGrouping)
        .with_colour_mapper(ColourMapper::Chromagram(ChromagramColour::new(500_000)))
        .build(44100, 2048)
        .unwrap();
    let mut spectrum: Vec<u64> = vec![0; 1024];
    spectrum[12] = SCALE; // MIDI pitch 60: class C, hue 0
    let (_, colour) = v.update(&spectrum).unwrap();
    assert_eq!(colour, Rgba { r: SCALE, g: 0, b: 0, a: SCALE });
}

#[test]
fn gamma_update_end_to_end() {
    let mut v = VisualiserBuilder::new()
        .with_grouping(GroupingStrategy::GammaCorrected { gamma: 2_000_000 })
        .with_num_bars(8)
        .build(44100, 64)
        .unwrap();
    let spectrum: Vec<u64> = (0..32).map(|i| (i as u64) * SCALE / 8).collect();
    let (bars, _) = v.update(&spectrum).unwrap();
    assert_eq!(bars.len(), v.grouping_ranges.len());
    assert!(bars.iter().all(|&b| b <= SCALE));
}

#[test]
fn pitch_rounding_assigns_bins_to_the_nearest_pitch() {
    // The bin-to-pitch conversion rounds to the nearest MIDI pitch. At
    // 44100 Hz over 1024 bins, bin 11 sits at 236.9 Hz (pitch 58.3) and
    // bin 12 at 258.4 Hz (pitch 59.8): they must land in slots 58 and 60.
    let mut spectrum: Vec<u64> = vec![0; 1024];
    spectrum[11] = SCALE;
    spectrum[12] = 2 * SCALE;
    let pitches = frequency_to_pitch_spectrum(&spectrum, 44100);
    assert_eq!(pitches[58], SCALE);
    assert_eq!(pitches[59], 0);
    assert_eq!(pitches[60], 2 * SCALE);
}

#[test]
fn hsv_wraps_every_full_turn() {
    // Adding whole turns to the hue leaves the colour unchanged.
    assert_eq!(
        hsv_to_rgb(370 * SCALE, SCALE, SCALE),
        hsv_to_rgb(10 * SCALE, SCALE, SCALE)
    );
    assert_eq!(
        hsv_to_rgb(720 * SCALE, SCALE, SCALE),
        hsv_to_rgb(0, SCALE, SCALE)
    );
}

#[test]
fn build_starts_with_a_zero_chromagram() {
    let v = VisualiserBuilder::new().build(44100, 2048).unwrap();
    assert_eq!(v.smoothed_chromagram, vec![0; 12]);
    assert!(!v.chroma_primed);
}
