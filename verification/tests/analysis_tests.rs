use milkdrop_pi::analysis::{
    compute_fft_size, fill_waveform, split_channels, RhythmHistory, RHYTHM_SIZE, WAVEFORM_SIZE,
};
use milkdrop_pi::audio::{needs_reconnect, AudioConfig};
use milkdrop_pi::render::{select_present_mode, PresentMode};
use milkdrop_pi::terrain::{RidgeHistory, NUM_RIDGES};

#[test]
fn fft_size_is_next_power_of_two_of_frame() {
    assert_eq!(compute_fft_size(48_000), 1024);
    assert_eq!(compute_fft_size(44_100), 1024);
    assert_eq!(compute_fft_size(8_000), 256);
    assert_eq!(compute_fft_size(7_680), 128);
    assert_eq!(compute_fft_size(96_000), 2048);
    assert_eq!(compute_fft_size(60), 1);
    assert_eq!(compute_fft_size(0), 1);
    assert_eq!(compute_fft_size(u32::MAX), 1 << 27);
}

#[test]
fn split_channels_takes_first_two_of_each_frame() {
    let s = [1, 2, 3, 4, 5, 6, 7, 8, 9, 10];
    let (l, r) = split_channels(&s, 3);
    assert_eq!(l, vec![1, 4, 7]);
    assert_eq!(r, vec![2, 5, 8]);
    let (l, r) = split_channels(&s, 1);
    assert_eq!(l, s.to_vec());
    assert_eq!(r, s.to_vec());
    let (l, r) = split_channels(&[0.5f32, -0.5], 2);
    assert_eq!(l, vec![0.5]);
    assert_eq!(r, vec![-0.5]);
}

#[test]
fn waveform_picks_evenly_spaced_samples() {
    let mono: Vec<u32> = (0..2048).collect();
    let mut out = [0u32; WAVEFORM_SIZE];
    fill_waveform(&mut out, &mono, 7);
    assert_eq!(out[0], 0);
    assert_eq!(out[1], 2);
    assert_eq!(out[1023], 2046);
    let mut out = [9u32; WAVEFORM_SIZE];
    fill_waveform(&mut out, &[], 7);
    assert!(out.iter().all(|&v| v == 7));
    let mut out = [0f32; WAVEFORM_SIZE];
    fill_waveform(&mut out, &[0.25, 0.75], 0.0);
    assert_eq!(out[0], 0.25);
    assert_eq!(out[511], 0.25);
    assert_eq!(out[512], 0.75);
}

#[test]
fn rhythm_history_keeps_last_values_oldest_first() {
    let mut h = RhythmHistory::new(4, 0u32);
    for v in 1..=6 {
        h.push(v);
    }
    let mut out = vec![0u32; 4];
    h.read_into(&mut out);
    assert_eq!(out, vec![3, 4, 5, 6]);
    let mut full = RhythmHistory::new(RHYTHM_SIZE, 0.0f32);
    full.push(1.5);
    let mut out = vec![0.0f32; RHYTHM_SIZE];
    full.read_into(&mut out);
    assert_eq!(out[RHYTHM_SIZE - 1], 1.5);
    assert_eq!(out[0], 0.0);
    assert_eq!(h.len(), 4);
}

#[test]
fn ridges_fill_ring_in_order() {
    let mut r = RidgeHistory::new(3, 2, 0u8);
    assert_eq!(r.ridges_due(2), 2);
    r.advance(2, &[1, 1]);
    assert_eq!(r.history(), &vec![1, 1, 1, 1, 0, 0]);
    assert_eq!(r.write_idx(), 2);
    assert_eq!(r.ridges_due(2), 0);
    r.advance(2, &[]);
    assert_eq!(r.write_idx(), 2);
    r.advance(3, &[5, 6]);
    assert_eq!(r.history(), &vec![1, 1, 1, 1, 5, 6]);
    assert_eq!(r.write_idx(), 0);
    // A large jump rewrites every row once.
    assert_eq!(r.ridges_due(100), 3);
    r.advance(100, &[7, 8]);
    assert_eq!(r.history(), &vec![7, 8, 7, 8, 7, 8]);
    assert_eq!(r.write_idx(), 0);
    // Going backwards adds nothing.
    assert_eq!(r.ridges_due(50), 0);
    let big = RidgeHistory::new(NUM_RIDGES, 4, 0.0f32);
    assert_eq!(big.history().len(), NUM_RIDGES * 4);
}

#[test]
fn audio_buffer_holds_one_second() {
    let c = AudioConfig { sample_rate: 48_000, channels: 2 };
    assert_eq!(c.buffer_capacity(), 96_000);
}

#[test]
fn reconnect_only_on_a_different_default_device() {
    assert!(!needs_reconnect(None, "Speakers"));
    assert!(!needs_reconnect(Some("Speakers"), "Speakers"));
    assert!(needs_reconnect(Some("Headphones"), "Speakers"));
    assert!(needs_reconnect(Some(""), "Speakers"));
}

#[test]
fn present_mode_prefers_mailbox_then_auto_vsync() {
    let p = |m: &[PresentMode]| select_present_mode(m);
    assert_eq!(
        p(&[PresentMode::Fifo, PresentMode::Mailbox, PresentMode::AutoVsync]),
        PresentMode::Mailbox
    );
    assert_eq!(p(&[PresentMode::Fifo, PresentMode::AutoVsync]), PresentMode::AutoVsync);
    assert_eq!(p(&[PresentMode::Immediate, PresentMode::Fifo]), PresentMode::Immediate);
}
