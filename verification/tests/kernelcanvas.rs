use dictawav::kernelcanvas::{get_painted_canvas, nearest_kernel_index, paint_canvas, tile_canvas};
use dictawav::wisard::{Ratio, Wisard};

fn distance_bits(kernel: &[f64], frame: &[f64]) -> u64 {
    let mut distance_squared = 0.0f64;
    for i in 0..kernel.len() {
        let diff = kernel[i] - frame[i];
        distance_squared += diff * diff;
    }
    distance_squared.to_bits()
}

fn distances_to_kernels(kernels: &[Vec<f64>], frame: &[f64]) -> Vec<u64> {
    kernels.iter().map(|k| distance_bits(k, frame)).collect()
}

#[test]
fn query_frame_quantizes_to_the_closest_kernel() {
    // Four kernels at the corners of a square; a frame at (0.9, 0.9) is
    // closest to the kernel at (1, 1).
    let kernels = vec![
        vec![-1.0, -1.0],
        vec![1.0, -1.0],
        vec![-1.0, 1.0],
        vec![1.0, 1.0],
    ];
    let distances = distances_to_kernels(&kernels, &[0.9, 0.9]);
    assert_eq!(nearest_kernel_index(&distances), 3);
}

#[test]
fn first_kernel_wins_distance_ties() {
    let distances = vec![5u64, 3u64, 3u64, 7u64];
    assert_eq!(nearest_kernel_index(&distances), 1);
}

#[test]
fn painted_canvas_marks_hit_kernels_and_tiles() {
    let kernels = vec![
        vec![-1.0, -1.0],
        vec![1.0, -1.0],
        vec![-1.0, 1.0],
        vec![1.0, 1.0],
    ];
    let frames = vec![distances_to_kernels(&kernels, &[0.9, 0.9])];
    let canvas = get_painted_canvas(4, 1, &frames);
    assert_eq!(canvas, vec![false, false, false, true]);
}

#[test]
fn tiling_replicates_the_active_kernels_verbatim() {
    let active = vec![true, false, true];
    let retina = tile_canvas(&active, 4);
    assert_eq!(retina.len(), 12);
    for copy in 0..4 {
        for k in 0..3 {
            assert_eq!(retina[copy * 3 + k], active[k]);
        }
    }
}

#[test]
fn canvas_length_is_kernel_count_times_output_factor() {
    let frames = vec![
        vec![9u64, 2u64, 5u64],
        vec![1u64, 2u64, 3u64],
    ];
    let canvas = get_painted_canvas(3, 5, &frames);
    assert_eq!(canvas.len(), 3 * 5);
    let active = paint_canvas(3, &frames);
    assert_eq!(active, vec![true, true, false]);
}

#[test]
fn utterance_without_frames_paints_nothing() {
    let frames: Vec<Vec<u64>> = Vec::new();
    let canvas = get_painted_canvas(3, 2, &frames);
    assert_eq!(canvas, vec![false; 6]);
}

#[test]
fn painting_a_stored_utterance_is_deterministic() {
    let frames = vec![
        vec![9u64, 2u64, 5u64],
        vec![1u64, 2u64, 3u64],
        vec![4u64, 4u64, 4u64],
    ];
    let first = get_painted_canvas(3, 2, &frames);
    let second = get_painted_canvas(3, 2, &frames);
    assert_eq!(first, second);
}

#[test]
fn worked_scenario_trains_and_recognizes_the_corner_frame() {
    // The full worked path: four 2-dimensional kernels at the square's
    // corners, one frame at (0.9, 0.9), output factor 1, identity mapping,
    // one 4-bit RAM. Training "yes" on the painted canvas stores count 1 at
    // address 8; classifying the same canvas gives 1 vote out of 1 RAM.
    let kernels = vec![
        vec![-1.0, -1.0],
        vec![1.0, -1.0],
        vec![-1.0, 1.0],
        vec![1.0, 1.0],
    ];
    let frames = vec![distances_to_kernels(&kernels, &[0.9, 0.9])];
    let retina = get_painted_canvas(4, 1, &frames);
    assert_eq!(retina, vec![false, false, false, true]);
    let mut wisard = Wisard::new(4, 4, false, Ratio { num: 0, den: 1 }, 0, false, true).unwrap();
    assert!(wisard.train(String::from("yes"), &retina).is_ok());
    let probabilities = wisard.classification_probabilities(&retina).unwrap();
    assert_eq!(probabilities, vec![(String::from("yes"), 1u64)]);
    let (_, (label, probability)) =
        wisard.classification_confidence_and_probability(&retina).unwrap();
    assert_eq!(label, "yes");
    assert_eq!(probability.num as f64 / probability.den as f64, 1.0);
}
