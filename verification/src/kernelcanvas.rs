//! The discrete stages of the kernel canvas: nearest-kernel quantization,
//! canvas painting, and tiling into a retina.
//!
//! Distance computation over the floating-point codebook happens outside
//! the verified core. Callers hand each processed frame's squared distances
//! to the kernels as order-preserving integer keys (for non-negative IEEE
//! doubles, the raw bit pattern is such a key); everything from the
//! nearest-neighbour decision onward is verified here.

use vstd::arithmetic::div_mod::{lemma_mod_multiples_vanish, lemma_small_mod};
use vstd::pervasive::VecAdditionalExecFns;
use vstd::prelude::*;

verus! {

/// The index of the first kernel at minimum distance: a later kernel
/// replaces the running best only when strictly closer.
pub open spec fn spec_nearest(distances: Seq<u64>) -> int
    decreases distances.len(),
{
    if distances.len() <= 1 {
        0
    } else {
        let prior = spec_nearest(distances.drop_last());
        if distances.last() < distances[prior] {
            distances.len() - 1
        } else {
            prior
        }
    }
}

/// `spec_nearest` picks a minimum, and the first one.
pub proof fn lemma_spec_nearest_is_first_min(distances: Seq<u64>)
    requires
        distances.len() >= 1,
    ensures
        0 <= spec_nearest(distances) < distances.len(),
        forall|i: int|
            0 <= i < distances.len() ==> distances[spec_nearest(distances)] <= #[trigger] distances[i],
        forall|i: int| 0 <= i < spec_nearest(distances) ==> #[trigger] distances[i] > distances[spec_nearest(distances)],
    decreases distances.len(),
{
    if distances.len() > 1 {
        let prefix = distances.drop_last();
        lemma_spec_nearest_is_first_min(prefix);
        let p = spec_nearest(prefix);
        assert(forall|i: int| 0 <= i < prefix.len() ==> prefix[i] == distances[i]);
        if distances.last() < distances[p] {
            assert(forall|i: int|
                0 <= i < prefix.len() ==> #[trigger] distances[i] >= distances[p]);
        }
    }
}

/// The nearest-kernel choice for each frame, in frame order.
pub open spec fn spec_nearest_each(frames: Seq<Seq<u64>>) -> Seq<int> {
    Seq::new(frames.len(), |f: int| spec_nearest(frames[f]))
}

/// Which kernels at least one frame quantized to.
pub open spec fn spec_paint(kernel_count: nat, hits: Seq<int>) -> Seq<bool> {
    Seq::new(kernel_count, |k: int| exists|i: int| 0 <= i < hits.len() && hits[i] == k)
}

/// `output_factor` verbatim copies of the active-kernel set, concatenated.
pub open spec fn spec_tile(active: Seq<bool>, factor: nat) -> Seq<bool> {
    Seq::new(active.len() * factor, |j: int| active[j % (active.len() as int)])
}

/// Law: the painted canvas is a function of the per-frame distances alone,
/// so painting a stored utterance is deterministic — no randomness remains
/// at inference time.
pub proof fn lemma_painted_canvas_deterministic(
    kernel_count: nat,
    output_factor: nat,
    frames1: Seq<Seq<u64>>,
    frames2: Seq<Seq<u64>>,
)
    requires
        frames1 == frames2,
    ensures
        spec_tile(spec_paint(kernel_count, spec_nearest_each(frames1)), output_factor) == spec_tile(
            spec_paint(kernel_count, spec_nearest_each(frames2)),
            output_factor,
        ),
{
}

/// The index of the kernel with the smallest distance key; the first such
/// kernel wins ties.
pub fn nearest_kernel_index(distances: &Vec<u64>) -> (index: usize)
    requires
        distances@.len() >= 1,
    ensures
        index as int == spec_nearest(distances@),
{
    let mut best: usize = 0;
    let mut best_distance: u64 = distances[0];
    let mut i: usize = 1;
    while i < distances.len()
        invariant
            1 <= i <= distances@.len(),
            best < i,
            best as int == spec_nearest(distances@.take(i as int)),
            best_distance == distances@[best as int],
        decreases distances@.len() - i,
    {
        proof {
            let prefix = distances@.take(i as int + 1);
            assert(prefix.drop_last() =~= distances@.take(i as int));
            assert(prefix.last() == distances@[i as int]);
            lemma_spec_nearest_is_first_min(distances@.take(i as int));
        }
        if distances[i] < best_distance {
            best = i;
            best_distance = distances[i];
        }
        i = i + 1;
    }
    proof {
        assert(distances@.take(distances@.len() as int) =~= distances@);
    }
    best
}

/// Paints the canvas for one utterance: scans every frame's distance keys,
/// flips the flag of its nearest kernel, and returns the resulting
/// active-kernel set.
pub fn paint_canvas(kernel_count: usize, frame_distances: &Vec<Vec<u64>>) -> (active: Vec<bool>)
    requires
        kernel_count >= 1,
        forall|f: int|
            0 <= f < frame_distances@.len() ==> (#[trigger] frame_distances@[f])@.len()
                == kernel_count,
    ensures
        active@ == spec_paint(kernel_count as nat, spec_nearest_each(frame_distances.deep_view())),
        active@.len() == kernel_count,
{
    let ghost frames = frame_distances.deep_view();
    let mut active: Vec<bool> = vec![false; kernel_count];
    let mut f: usize = 0;
    proof {
        assert(active@ =~= spec_paint(kernel_count as nat, spec_nearest_each(frames.take(0))));
    }
    while f < frame_distances.len()
        invariant
            f <= frame_distances@.len(),
            kernel_count >= 1,
            frames == frame_distances.deep_view(),
            forall|k: int|
                0 <= k < frame_distances@.len() ==> (#[trigger] frame_distances@[k])@.len()
                    == kernel_count,
            active@.len() == kernel_count,
            active@ == spec_paint(kernel_count as nat, spec_nearest_each(frames.take(f as int))),
        decreases frame_distances@.len() - f,
    {
        let index = nearest_kernel_index(&frame_distances[f]);
        proof {
            assert(frames[f as int] == frame_distances@[f as int]@);
            lemma_spec_nearest_is_first_min(frames[f as int]);
        }
        active.set(index, true);
        proof {
            let prev_hits = spec_nearest_each(frames.take(f as int));
            let hits = spec_nearest_each(frames.take(f as int + 1));
            assert(hits.drop_last() =~= prev_hits);
            assert(hits.last() == spec_nearest(frames[f as int]));
            assert forall|k: int| 0 <= k < kernel_count implies active@[k] == spec_paint(
                kernel_count as nat,
                hits,
            )[k] by {
                if k == index as int {
                    assert(hits[hits.len() - 1] == k);
                } else {
                    assert(forall|i: int|
                        0 <= i < hits.len() && #[trigger] hits[i] == k <==> 0 <= i
                            < prev_hits.len() && prev_hits[i] == k);
                }
            }
            assert(active@ =~= spec_paint(kernel_count as nat, hits));
        }
        f = f + 1;
    }
    proof {
        assert(frames.take(f as int) =~= frames);
    }
    active
}

/// Concatenates `output_factor` verbatim copies of the active-kernel set:
/// redundant tiling that stretches the canvas to the configured retina
/// length.
pub fn tile_canvas(active: &Vec<bool>, output_factor: usize) -> (retina: Vec<bool>)
    requires
        active@.len() * output_factor <= usize::MAX,
    ensures
        retina@ == spec_tile(active@, output_factor as nat),
        retina@.len() == active@.len() * output_factor,
{
    let kernel_count = active.len();
    let mut retina: Vec<bool> = Vec::new();
    let mut copy: usize = 0;
    while copy < output_factor
        invariant
            copy <= output_factor,
            kernel_count == active@.len(),
            kernel_count * output_factor <= usize::MAX,
            retina@.len() == kernel_count * copy,
            forall|j: int|
                0 <= j < retina@.len() ==> #[trigger] retina@[j] == active@[j % (kernel_count
                    as int)],
        decreases output_factor - copy,
    {
        proof {
            assert((copy + 1) * kernel_count <= output_factor * kernel_count) by (nonlinear_arith)
                requires
                    copy + 1 <= output_factor,
                    kernel_count >= 0,
            ;
            assert(output_factor * kernel_count == kernel_count * output_factor)
                by (nonlinear_arith);
            assert((copy + 1) * kernel_count == copy * kernel_count + kernel_count)
                by (nonlinear_arith);
            assert(kernel_count * copy == copy * kernel_count) by (nonlinear_arith);
            assert(kernel_count * (copy + 1) == (copy + 1) * kernel_count) by (nonlinear_arith);
        }
        let mut k: usize = 0;
        while k < kernel_count
            invariant
                k <= kernel_count,
                kernel_count == active@.len(),
                copy < output_factor,
                copy * kernel_count + kernel_count <= kernel_count * output_factor,
                kernel_count * output_factor <= usize::MAX,
                retina@.len() == copy * kernel_count + k,
                forall|j: int|
                    0 <= j < retina@.len() ==> #[trigger] retina@[j] == active@[j % (kernel_count
                        as int)],
            decreases kernel_count - k,
        {
            retina.push(active[k]);
            proof {
                let j = retina@.len() - 1;
                lemma_mod_multiples_vanish(copy as int, k as int, kernel_count as int);
                lemma_small_mod(k as nat, kernel_count as nat);
                assert(j == kernel_count as int * (copy as int) + k as int) by (nonlinear_arith)
                    requires
                        j == copy as int * (kernel_count as int) + k as int,
                ;
                assert(retina@[j] == active@[j % (kernel_count as int)]);
            }
            k = k + 1;
        }
        copy = copy + 1;
    }
    proof {
        assert(copy * kernel_count == kernel_count * copy) by (nonlinear_arith);
        assert(retina@ =~= spec_tile(active@, output_factor as nat));
    }
    retina
}

/// The boolean retina for one utterance: kernels hit by at least one frame,
/// tiled `output_factor` times. Its length is always
/// `kernel_count * output_factor`, whatever the utterance.
pub fn get_painted_canvas(
    kernel_count: usize,
    output_factor: usize,
    frame_distances: &Vec<Vec<u64>>,
) -> (retina: Vec<bool>)
    requires
        kernel_count >= 1,
        kernel_count * output_factor <= usize::MAX,
        forall|f: int|
            0 <= f < frame_distances@.len() ==> (#[trigger] frame_distances@[f])@.len()
                == kernel_count,
    ensures
        retina@ == spec_tile(
            spec_paint(kernel_count as nat, spec_nearest_each(frame_distances.deep_view())),
            output_factor as nat,
        ),
        retina@.len() == kernel_count * output_factor,
{
    let active = paint_canvas(kernel_count, frame_distances);
    tile_canvas(&active, output_factor)
}

} // verus!
