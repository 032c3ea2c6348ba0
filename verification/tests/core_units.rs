//! Unit tests for the RNG, the scheduler arithmetic, the image buffer, the
//! containers and the output-format parsing.

use std::str::FromStr;

use raybow::geometry::bvh::{partition, split_equal_counts, split_middle};
use raybow::geometry::triangle::triangles_from_indices;
use raybow::geometry::world::World;
use raybow::image::Image;
use raybow::output::OutputFormat;
use raybow::philox::Philox4x32_10;
use raybow::raybow::{pixel_coords, WorkerState};
use raybow::vector::Dimension;

#[test]
fn philox_same_inputs_same_outputs() {
    let g = Philox4x32_10([0xDEAD_BEEF, 0x1234_5678]);
    let ctr = [7, 11, 13, 17];
    assert_eq!(g.gen(ctr), g.gen(ctr));
    let g2 = Philox4x32_10([0xDEAD_BEEF, 0x1234_5678]);
    assert_eq!(g.gen(ctr), g2.gen(ctr));
}

#[test]
fn philox_counter_components_matter() {
    let g = Philox4x32_10([1, 2]);
    let base = g.gen([10, 20, 30, 40]);
    assert_ne!(base, g.gen([11, 20, 30, 40]));
    assert_ne!(base, g.gen([10, 21, 30, 40]));
    assert_ne!(base, g.gen([10, 20, 31, 40]));
    assert_ne!(base, g.gen([10, 20, 30, 41]));
}

#[test]
fn philox_key_matters() {
    let ctr = [0, 0, 0, 0];
    let a = Philox4x32_10([0, 0]).gen(ctr);
    let b = Philox4x32_10([0, 1]).gen(ctr);
    let c = Philox4x32_10([1, 0]).gen(ctr);
    assert_ne!(a, b);
    assert_ne!(a, c);
}

#[test]
fn philox_adjacent_counters_no_collisions() {
    let g = Philox4x32_10([42, 43]);
    let mut seen = Vec::new();
    for x in 0..4u32 {
        for y in 0..4u32 {
            let out = g.gen([x, y, 0, 0]);
            assert!(!seen.contains(&out), "collision at ({x}, {y})");
            seen.push(out);
        }
    }
}

fn to_unit_floats(words: [u32; 4]) -> [f32; 4] {
    words.map(|x| (x >> 8) as f32 * (f32::EPSILON / 2.0))
}

#[test]
fn philox_floats_stay_in_unit_interval() {
    let g = Philox4x32_10([3, 9]);
    for i in 0..100u32 {
        for f in to_unit_floats(g.gen([i, 2 * i, 0, 1])) {
            assert!((0.0..1.0).contains(&f));
        }
    }
}

#[test]
fn worker_state_counts_draws() {
    let mut state = WorkerState::new(0x0123_4567_89AB_CDEF);
    assert_eq!(state.philox.0, [0x0123_4567, 0x89AB_CDEF]);
    state.init_trace(5, 3);
    assert_eq!(state.pixel_number, 5);
    assert_eq!(state.sample_number, 3);
    assert_eq!(state.ray_number, 0);
    assert_eq!(state.rng_cnt, 0);
    let w0 = state.gen_random_words();
    assert_eq!(state.rng_cnt, 1);
    let w1 = state.gen_random_words();
    assert_eq!(state.rng_cnt, 2);
    assert_ne!(w0, w1);
    assert_eq!(w0, state.philox.gen([5, 3, 0, 0]));
    assert_eq!(w1, state.philox.gen([5, 3, 0, 1]));
}

#[test]
fn pixel_coords_row_major() {
    assert_eq!(pixel_coords(0, 4), (0, 0));
    assert_eq!(pixel_coords(3, 4), (3, 0));
    assert_eq!(pixel_coords(4, 4), (0, 1));
    assert_eq!(pixel_coords(11, 4), (3, 2));
}

#[test]
fn every_pixel_claimed_exactly_once() {
    // The scheduler scenario: claims run from zero past width * height, each
    // claim in range owns one slot, and afterwards every slot was written
    // exactly once and the counter is at least width * height.
    let (width, height) = (7u32, 5u32);
    let mut image: Image<u32> = Image::new(width, height, 0);
    let mut writes = vec![0u32; (width * height) as usize];
    let mut counter = 0u32;
    let workers = 3;
    let mut stopped = 0;
    while stopped < workers {
        let claim = counter;
        counter += 1;
        if claim >= width * height {
            stopped += 1;
            continue;
        }
        let (x, y) = pixel_coords(claim, width);
        assert!(x < width && y < height);
        image.set_pixel(claim as usize, claim);
        writes[(y * width + x) as usize] += 1;
    }
    assert!(counter >= width * height);
    for w in writes {
        assert_eq!(w, 1);
    }
    for y in 0..height {
        for x in 0..width {
            assert_eq!(image.pixel(x, y), Some(y * width + x));
        }
    }
}

#[test]
fn image_pixel_bounds() {
    let image: Image<u8> = Image::new(3, 2, 9);
    assert_eq!(image.width(), 3);
    assert_eq!(image.height(), 2);
    assert_eq!(image.pixel(0, 0), Some(9));
    assert_eq!(image.pixel(2, 1), Some(9));
    assert_eq!(image.pixel(0, 2), None);
    assert_eq!(image.pixel(100, 100), None);
}

#[test]
fn world_keeps_objects_and_boxes_in_step() {
    let mut world: World<&str, (i32, i32)> = World::new();
    assert_eq!(world.len(), 0);
    world.push("a", (0, 1));
    world.push("b", (2, 3));
    assert_eq!(world.len(), 2);
    assert_eq!(*world.object(0), "a");
    assert_eq!(*world.object(1), "b");
    assert_eq!(*world.bounding_box(0), (0, 1));
    assert_eq!(*world.bounding_box(1), (2, 3));
}

#[test]
fn partition_splits_by_predicate() {
    let mut v = vec![5, 2, 9, 1, 7, 3, 8];
    let m = partition(&mut v, 0, 7, &|x: i32| x < 5);
    assert_eq!(m, 3);
    assert_eq!(v.len(), 7);
    for (i, x) in v.iter().enumerate() {
        if i < m {
            assert!(*x < 5);
        } else {
            assert!(*x >= 5);
        }
    }
    let mut sorted = v.clone();
    sorted.sort();
    assert_eq!(sorted, vec![1, 2, 3, 5, 7, 8, 9]);
}

#[test]
fn partition_respects_range() {
    let mut v = vec![9, 1, 8, 2, 7, 3];
    let m = partition(&mut v, 1, 5, &|x: i32| x < 5);
    assert_eq!(v[0], 9);
    assert_eq!(v[5], 3);
    for (i, x) in v.iter().enumerate().take(5).skip(1) {
        if i < m {
            assert!(*x < 5);
        } else {
            assert!(*x >= 5);
        }
    }
}

#[test]
fn partition_all_on_one_side() {
    let mut v = vec![1, 2, 3];
    assert_eq!(partition(&mut v, 0, 3, &|x: i32| x < 10), 3);
    assert_eq!(partition(&mut v, 0, 3, &|x: i32| x > 10), 0);
    let mut empty: Vec<i32> = Vec::new();
    assert_eq!(partition(&mut empty, 0, 0, &|x: i32| x < 10), 0);
}

#[test]
fn split_middle_falls_back_to_equal_counts() {
    // Degenerate partition (everything on one side) must still cut strictly.
    let mut v = vec![4, 3, 2, 1];
    let m = split_middle(&mut v, 0, 4, &|x: i32| x < 0, &|a: &i32, b: &i32| a.cmp(b));
    assert_eq!(m, 2);
    let mut sorted = v.clone();
    sorted.sort();
    assert_eq!(sorted, vec![1, 2, 3, 4]);
}

#[test]
fn split_equal_counts_is_a_permutation() {
    let mut v = vec![10, 30, 20, 50, 40];
    let m = split_equal_counts(&mut v, 0, 5, &|a: &i32, b: &i32| a.cmp(b));
    assert_eq!(m, 2);
    let mut sorted = v.clone();
    sorted.sort();
    assert_eq!(sorted, vec![10, 20, 30, 40, 50]);
}

#[test]
fn triangles_group_index_triples() {
    let indices = vec![0u32, 1, 2, 2, 3, 0];
    let tris = triangles_from_indices(&indices);
    assert_eq!(tris.len(), 2);
    assert_eq!(tris[0].indices, [0, 1, 2]);
    assert_eq!(tris[1].indices, [2, 3, 0]);
}

#[test]
fn dimension_indexes_components() {
    assert_eq!(Dimension::X.index(), 0);
    assert_eq!(Dimension::Y.index(), 1);
    assert_eq!(Dimension::Z.index(), 2);
}

#[test]
fn output_format_extensions() {
    assert_eq!(OutputFormat::Exr.default_file_extension(), "exr");
    assert_eq!(OutputFormat::Qoi.default_file_extension(), "qoi");
    assert_eq!(OutputFormat::Png.default_file_extension(), "png");
}

#[test]
fn output_format_parses_ignoring_case() {
    assert_eq!(OutputFormat::from_str("exr"), Ok(OutputFormat::Exr));
    assert_eq!(OutputFormat::from_str("EXR"), Ok(OutputFormat::Exr));
    assert_eq!(OutputFormat::from_str("qOi"), Ok(OutputFormat::Qoi));
    assert_eq!(OutputFormat::from_str("Png"), Ok(OutputFormat::Png));
    let err = OutputFormat::from_str("bmp").unwrap_err();
    assert_eq!(err, "unsupported output format: bmp");
}

use raybow::material::MaterialHitResult;
use raybow::raybow::ray_color;

#[test]
fn integrator_miss_yields_background() {
    let trace = |w: u32, _ray: i32| -> (u32, Option<MaterialHitResult<f32, i32>>) { (w + 1, None) };
    let (calls, color, _) = ray_color(
        0u32,
        7i32,
        50,
        &trace,
        &|a: f32, b: f32| a + b,
        &|a: f32, b: f32| a * b,
        0.25f32,
        0.0f32,
        1.0f32,
    );
    assert_eq!(calls, 1);
    assert_eq!(color, 0.25);
}

#[test]
fn integrator_absorption_keeps_emission() {
    let trace = |w: u32, _ray: i32| -> (u32, Option<MaterialHitResult<f32, i32>>) {
        (w + 1, Some(MaterialHitResult::emitting(3.0)))
    };
    let (calls, color, _) = ray_color(
        0u32,
        0i32,
        50,
        &trace,
        &|a: f32, b: f32| a + b,
        &|a: f32, b: f32| a * b,
        0.25f32,
        0.0f32,
        1.0f32,
    );
    assert_eq!(calls, 1);
    assert_eq!(color, 3.0);
}

#[test]
fn integrator_truncates_at_bounce_budget() {
    // A path that always scatters: the budget runs out and the result is the
    // emission gathered so far, attenuated at each bounce.
    let trace = |w: u32, ray: i32| -> (u32, Option<MaterialHitResult<f32, i32>>) {
        (w + 1, Some(MaterialHitResult { reflection: Some(raybow::material::Reflection { ray: ray + 1, attenuation: 0.5 }), emission: 1.0 }))
    };
    let (calls, color, _) = ray_color(
        0u32,
        0i32,
        4,
        &trace,
        &|a: f32, b: f32| a + b,
        &|a: f32, b: f32| a * b,
        100.0f32,
        0.0f32,
        1.0f32,
    );
    assert_eq!(calls, 4);
    // 1 + 0.5 + 0.25 + 0.125, and never the background.
    assert_eq!(color, 1.875);
}

#[test]
fn integrator_zero_budget_is_black() {
    let trace = |w: u32, _ray: i32| -> (u32, Option<MaterialHitResult<f32, i32>>) { (w + 1, None) };
    let (calls, color, _) = ray_color(
        0u32,
        0i32,
        0,
        &trace,
        &|a: f32, b: f32| a + b,
        &|a: f32, b: f32| a * b,
        0.25f32,
        0.0f32,
        1.0f32,
    );
    assert_eq!(calls, 0);
    assert_eq!(color, 0.0);
}
