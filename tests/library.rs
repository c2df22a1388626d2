use raytracer::estimator::{PathEnd, PathWalk};
use raytracer::hittable_list::HittableList;
use raytracer::image_buffer::rgb_buffer_fits;
use raytracer::schedule::{reassemble, render_jobs, Pixel, ReassembleError};

fn walk(depth: usize, hits: &[bool]) -> (PathWalk, usize) {
    let mut w = PathWalk::new(depth);
    let mut used: usize = 0;
    while !w.is_finished() {
        w.record(hits[used]);
        used += 1;
    }
    (w, used)
}

#[test]
fn jobs_cover_every_pixel_bottom_row_first_right_to_left() {
    let jobs = render_jobs(3, 2);
    let expected = vec![
        Pixel { row: 0, col: 2 },
        Pixel { row: 0, col: 1 },
        Pixel { row: 0, col: 0 },
        Pixel { row: 1, col: 2 },
        Pixel { row: 1, col: 1 },
        Pixel { row: 1, col: 0 },
    ];
    assert_eq!(jobs, expected);
}

#[test]
fn jobs_of_empty_image() {
    assert!(render_jobs(0, 5).is_empty());
    assert!(render_jobs(4, 0).is_empty());
}

#[test]
fn jobs_count_is_width_times_height() {
    assert_eq!(render_jobs(16, 9).len(), 144);
}

#[test]
fn reassemble_out_of_order_results() {
    let results = vec![(1usize, 'b'), (3, 'd'), (0, 'a'), (2, 'c')];
    assert_eq!(reassemble(4, &results), Ok(vec!['d', 'c', 'b', 'a']));
}

#[test]
fn reassemble_is_independent_of_arrival_order() {
    let a = vec![(0usize, 10u8), (1, 11), (2, 12)];
    let b = vec![(2usize, 12u8), (0, 10), (1, 11)];
    assert_eq!(reassemble(3, &a), reassemble(3, &b));
    assert_eq!(reassemble(3, &a), Ok(vec![12, 11, 10]));
}

#[test]
fn reassemble_nothing() {
    let results: Vec<(usize, u8)> = vec![];
    assert_eq!(reassemble(0, &results), Ok(vec![]));
}

#[test]
fn reassemble_lost_result() {
    let results = vec![(0usize, 1u8), (1, 2)];
    assert_eq!(reassemble(3, &results), Err(ReassembleError::WrongCount));
}

#[test]
fn reassemble_foreign_tag() {
    let results = vec![(0usize, 1u8), (3, 2), (1, 3)];
    assert_eq!(reassemble(3, &results), Err(ReassembleError::TagOutOfRange));
}

#[test]
fn reassemble_duplicated_result() {
    let results = vec![(0usize, 1u8), (2, 2), (0, 3)];
    assert_eq!(reassemble(3, &results), Err(ReassembleError::DuplicateTag));
}

#[test]
fn reassembled_jobs_are_in_raster_order() {
    let (w, h) = (4u32, 3u32);
    let jobs = render_jobs(w, h);
    let mut results: Vec<(usize, Pixel)> = jobs.iter().copied().enumerate().collect();
    results.reverse();
    results.swap(0, 7);
    results.swap(3, 10);
    let image = reassemble(jobs.len(), &results).unwrap();
    for (k, p) in image.iter().enumerate() {
        let k = k as u32;
        assert_eq!(*p, Pixel { row: h - 1 - k / w, col: k % w });
    }
}

#[test]
fn zero_depth_path_is_black_before_any_query() {
    let w = PathWalk::new(0);
    assert!(w.is_finished());
    assert_eq!(w.end, Some(PathEnd::Absorbed));
    assert_eq!(w.bounces, 0);
    assert_eq!(walk(0, &[]).1, 0);
}

#[test]
fn primary_miss_escapes_without_bounce() {
    let (w, used) = walk(8, &[false]);
    assert_eq!(w.end, Some(PathEnd::Escaped));
    assert_eq!(w.bounces, 0);
    assert_eq!(used, 1);
}

#[test]
fn first_miss_decides_the_bounce_count() {
    let (w, used) = walk(5, &[true, true, false, true, true]);
    assert_eq!(w.end, Some(PathEnd::Escaped));
    assert_eq!(w.bounces, 2);
    assert_eq!(used, 3);
}

#[test]
fn path_that_keeps_hitting_ends_black_at_depth() {
    let (w, used) = walk(3, &[true, true, true, true]);
    assert_eq!(w.end, Some(PathEnd::Absorbed));
    assert_eq!(w.bounces, 3);
    assert_eq!(w.remaining, 0);
    assert_eq!(used, 3);
}

#[test]
fn single_bounce_budget() {
    let (w, _) = walk(1, &[true]);
    assert_eq!(w.end, Some(PathEnd::Absorbed));
    assert_eq!(w.bounces, 1);
    let (w, _) = walk(1, &[false]);
    assert_eq!(w.end, Some(PathEnd::Escaped));
    assert_eq!(w.bounces, 0);
}

#[test]
fn scene_keeps_insertion_order() {
    let mut scene = HittableList::new();
    assert_eq!(scene.len(), 0);
    scene.add("ground");
    scene.add("left");
    scene.add("right");
    assert_eq!(scene.len(), 3);
    assert_eq!(scene.objects(), &vec!["ground", "left", "right"]);
    scene.clear();
    assert_eq!(scene.len(), 0);
}

#[test]
fn rgb_buffer_must_match_exactly() {
    assert!(rgb_buffer_fits(2, 2, 12));
    assert!(!rgb_buffer_fits(2, 2, 11));
    assert!(!rgb_buffer_fits(2, 2, 13));
    assert!(rgb_buffer_fits(0, 5, 0));
    assert!(rgb_buffer_fits(3840, 2160, 24_883_200));
    assert!(!rgb_buffer_fits(u32::MAX, u32::MAX, usize::MAX));
}
