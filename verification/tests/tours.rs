use hull_tour::edges::{eliminate_all_crossings, eliminate_crossings, segments_intersect};
use hull_tour::expand::{
    adaptive_n, construct, expand, expand_once, iteration_cap, nearest_pair, position, settle_pick,
    update_hull,
};
use hull_tour::select::{
    better_of, edge_best, edge_pick, insert_point, keep_present, search_frame, sentinel, Kernels,
    HUNDRED, HUNDRED_SQUARED, MINUS_ONE, TENTH,
};
use hull_tour::hull::{build_chain, convex_hull, sort_key};
use hull_tour::or_opt::{
    best_slot, multi_or_opt_optimization, or_opt_optimization, or_opt_sweep, perform_or_opt_move,
    Cut, Slot, MARGIN,
};
use hull_tour::precompute::{bounding_box, Bounds, SpatialGrid};
use hull_tour::reader::{find_from, parse_file, section_lines, NodeLine};
use hull_tour::relp::{
    find_lowest_lda_points, is_struck, reluctant_points, remove_points_from_hull, InsertPointResult,
    EPS,
};
use hull_tour::shared::{
    contains_point, exceeds, key_of, not_above, side_from, vec_diff, Point, Side, INFINITE,
    MINUS_INFINITE,
};
use hull_tour::tour::reverse_span;
use hull_tour::writer::write_file;

fn pt(x: f32, y: f32) -> Point {
    Point { x: x.to_bits(), y: y.to_bits() }
}

fn px(p: Point) -> f32 {
    f32::from_bits(p.x)
}

fn py(p: Point) -> f32 {
    f32::from_bits(p.y)
}

fn calc_dist(a: Point, b: Point) -> f32 {
    let dx = px(a) - px(b);
    let dy = py(a) - py(b);
    dx.mul_add(dx, dy * dy).sqrt()
}

fn point_line(a: Point, b: Point, c: Point) -> f32 {
    let dx = px(b) - px(a);
    let dy = py(b) - py(a);
    let len_sq = dx.mul_add(dx, dy * dy);
    if len_sq == 0.0 {
        return calc_dist(a, c);
    }
    let t = (((px(c) - px(a)) * dx + (py(c) - py(a)) * dy) / len_sq).clamp(0.0, 1.0);
    let qx = px(c) - t.mul_add(dx, px(a));
    let qy = py(c) - t.mul_add(dy, py(a));
    qx.mul_add(qx, qy * qy).sqrt()
}

fn fast_acos(x: f32) -> f32 {
    let u = x.abs();
    let p = (-0.0187293f32)
        .mul_add(u, 0.0742610)
        .mul_add(u, -0.2121144)
        .mul_add(u, 1.5707288);
    let r = p * (1.0 - u).sqrt();
    if x < 0.0 {
        std::f32::consts::PI - r
    } else {
        r
    }
}

fn lda(a: Point, b: Point, c: Point) -> f32 {
    let ab = calc_dist(a, b);
    let bc = calc_dist(b, c);
    let ac = calc_dist(a, c);
    let cosine = ((bc.mul_add(bc, ac * ac) - ab * ab) / (2.0 * bc * ac)).clamp(-1.0, 1.0);
    fast_acos(cosine) / point_line(a, b, c).max(1e-10)
}

fn path_dist(path: &[Point]) -> f32 {
    let mut sum = 0.0;
    for i in 0..path.len() {
        sum += calc_dist(path[i], path[(i + 1) % path.len()]);
    }
    sum
}

fn search_radius(hull: &Vec<Point>) -> f32 {
    path_dist(hull) / hull.len() as f32 * 2.0
}

fn cross(o: Point, a: Point, b: Point) -> f32 {
    (px(a) - px(o)) * (py(b) - py(o)) - (py(a) - py(o)) * (px(b) - px(o))
}

fn side(o: Point, a: Point, b: Point) -> u32 {
    cross(o, a, b).to_bits()
}

fn shorter(a: Point, b: Point, c: Point, d: Point) -> u32 {
    (calc_dist(a, b) + calc_dist(c, d)).to_bits()
}

fn gain(cut: Cut, slot: Slot) -> f32 {
    let saved = calc_dist(cut.before, cut.first) + calc_dist(cut.last, cut.after)
        - calc_dist(cut.before, cut.after);
    let cost = calc_dist(slot.left, cut.first) + calc_dist(cut.last, slot.right)
        - calc_dist(slot.left, slot.right);
    saved - cost
}

fn beats(cut: Cut, slot: Slot) -> u32 {
    gain(cut, slot).to_bits()
}

fn near(p: Point, q: Point) -> (u32, u32) {
    ((px(p) - px(q)).abs().to_bits(), (py(p) - py(q)).abs().to_bits())
}

fn cell_size_for(points: &[Point]) -> (f32, f32, f32) {
    let b = bounding_box(&points.to_vec());
    let (min_x, max_x) = (f32::from_bits(b.min_x), f32::from_bits(b.max_x));
    let (min_y, max_y) = (f32::from_bits(b.min_y), f32::from_bits(b.max_y));
    let w = max_x - min_x;
    let h = max_y - min_y;
    let size = ((w * w + h * h).sqrt() / (points.len() as f32).sqrt()) * 0.5;
    (size, min_x, min_y)
}

fn locator(points: &[Point]) -> impl Fn(Point) -> (i32, i32) {
    let (size, min_x, min_y) = cell_size_for(points);
    move |p: Point| (((px(p) - min_x) / size) as i32, ((py(p) - min_y) / size) as i32)
}

fn kernels(
    cell_size: f32,
) -> Kernels<
    impl Fn(&Vec<Point>) -> (u32, u32),
    impl Fn(u32) -> i32,
    impl Fn(Point, Point) -> u32,
    impl Fn(Point, Point) -> Point,
    impl Fn(Point, Point, [Point; 8]) -> [u32; 8],
    impl Fn(Point, Point) -> u32,
> {
    Kernels {
        radius_of: |h: &Vec<Point>| {
            let r = search_radius(h);
            (r.to_bits(), (r * r).to_bits())
        },
        reach_of: move |r: u32| (f32::from_bits(r) / cell_size).ceil() as i32,
        dist_sq: |c: Point, p: Point| {
            ((px(p) - px(c)).powi(2) + (py(p) - py(c)).powi(2)).to_bits()
        },
        mid_of: |a: Point, b: Point| pt((px(b) + px(a)) / 2.0, (py(b) + py(a)) / 2.0),
        score: |a: Point, b: Point, lanes: [Point; 8]| lanes.map(|c| lda(a, b, c).to_bits()),
        dist: |p: Point, q: Point| calc_dist(p, q).to_bits(),
    }
}

/// Hull, expansion, and the three passes, as a caller would run them.
fn solve(points: &Vec<Point>, post: bool) -> (Vec<Point>, f32) {
    let mut hull = convex_hull(points, &side);
    let mut inner = vec_diff(points, &hull);
    let mut log: Vec<InsertPointResult> = Vec::new();
    let (size, _, _) = cell_size_for(points);
    let k = kernels(size);
    let mut grid = SpatialGrid::new(&inner, locator(points));
    if hull.is_empty() {
        return (hull, 0.0);
    }
    expand(&mut hull, &mut inner, &mut grid, &mut log, &k);
    let raw = path_dist(&hull);
    if !post {
        return (hull, raw);
    }
    eliminate_all_crossings(&mut hull, &side, &shorter, usize::MAX);
    multi_or_opt_optimization(&mut hull, &beats);
    let mut again = reluctant_points(&log, hull.len());
    remove_points_from_hull(&mut hull, &again, &near);
    if !hull.is_empty() && !again.is_empty() {
        let (size, _, _) = cell_size_for(&again);
        let k = kernels(size);
        let mut grid = SpatialGrid::new(&again, locator(&again));
        expand(&mut hull, &mut again, &mut grid, &mut log, &k);
    }
    (hull, raw)
}

fn same_points(a: &[Point], b: &[Point]) -> bool {
    let key = |p: &Point| (p.x, p.y);
    let mut x: Vec<(u32, u32)> = a.iter().map(key).collect();
    let mut y: Vec<(u32, u32)> = b.iter().map(key).collect();
    x.sort();
    y.sort();
    x == y
}

fn crossings(tour: &[Point]) -> usize {
    let n = tour.len();
    let mut found = 0;
    for i in 0..n {
        for j in (i + 2)..n {
            if i == 0 && j + 1 == n {
                continue;
            }
            let (a, b, c, d) = (tour[i], tour[i + 1], tour[j], tour[(j + 1) % n]);
            if segments_intersect(&side, a, b, c, d) {
                found += 1;
            }
        }
    }
    found
}

fn unit_square() -> Vec<Point> {
    vec![pt(0.0, 0.0), pt(1.0, 0.0), pt(1.0, 1.0), pt(0.0, 1.0)]
}

fn scattered(n: usize) -> Vec<Point> {
    let mut state: u64 = 0x2545_F491_4F6C_DD1D;
    let mut next = move || {
        state = state.wrapping_mul(6364136223846793005).wrapping_add(1442695040888963407);
        ((state >> 40) as f32) / (1u64 << 24) as f32
    };
    let mut out = Vec::new();
    while out.len() < n {
        let p = pt(next(), next());
        if !out.contains(&p) {
            out.push(p);
        }
    }
    out
}

#[test]
fn vec_diff_keeps_order_of_first() {
    let a = vec![pt(0.0, 0.0), pt(1.0, 0.0), pt(2.0, 0.0), pt(1.0, 0.0)];
    let b = vec![pt(1.0, 0.0)];
    assert_eq!(vec_diff(&a, &b), vec![pt(0.0, 0.0), pt(2.0, 0.0)]);
    assert!(contains_point(&a, pt(2.0, 0.0)));
    assert!(!contains_point(&a, pt(2.0, 1.0)));
}

#[test]
fn points_are_equal_by_their_bits() {
    assert_ne!(pt(0.0, 0.0), pt(-0.0, 0.0));
    assert_eq!(pt(f32::NAN, 1.0), pt(f32::NAN, 1.0));
}

#[test]
fn order_key_follows_the_numbers() {
    assert_eq!(key_of(0.0f32.to_bits()), 0x8000_0000);
    assert_eq!(key_of((-0.0f32).to_bits()), 0x8000_0000);
    assert_eq!(key_of(1.0f32.to_bits()), 0xBF80_0000);
    assert_eq!(key_of((-1.0f32).to_bits()), 0x407F_FFFF);
    let values = [f32::NEG_INFINITY, -2.5, -1.0, -1e-30, 0.0, 1e-30, 0.1, 1.0, 7.0, f32::INFINITY];
    for w in values.windows(2) {
        assert!(key_of(w[0].to_bits()) < key_of(w[1].to_bits()));
    }
}

#[test]
fn exceeds_is_false_without_a_number() {
    assert!(exceeds(1.0f32.to_bits(), 0.5f32.to_bits()));
    assert!(!exceeds(0.5f32.to_bits(), 1.0f32.to_bits()));
    assert!(!exceeds(0.0f32.to_bits(), (-0.0f32).to_bits()));
    assert!(!exceeds(f32::NAN.to_bits(), 0.0f32.to_bits()));
    assert!(!exceeds(0.0f32.to_bits(), f32::NAN.to_bits()));
    assert!(exceeds(0.0f32.to_bits(), MINUS_ONE));
    assert_eq!(MINUS_ONE, (-1.0f32).to_bits());
    assert_eq!(TENTH, 0.1f32.to_bits());
}

#[test]
fn reverse_span_turns_the_middle() {
    let mut t = vec![pt(0.0, 0.0), pt(1.0, 0.0), pt(2.0, 0.0), pt(3.0, 0.0), pt(4.0, 0.0)];
    reverse_span(&mut t, 1, 3);
    assert_eq!(t, vec![pt(0.0, 0.0), pt(3.0, 0.0), pt(2.0, 0.0), pt(1.0, 0.0), pt(4.0, 0.0)]);
}

#[test]
fn parse_file_reads_the_section() {
    let text = "NAME : t\nTYPE : TSP\nNODE_COORD_SECTION\n1 0.0 1.5\n2 1e3 -2.5E-1 extra\n\n3 7\n 4\t8.25\r9 \nEOF\n5 1 1\n";
    let lines = parse_file(text.as_bytes());
    let got: Vec<(String, String)> = lines
        .iter()
        .map(|l| (String::from_utf8(l.x.clone()).unwrap(), String::from_utf8(l.y.clone()).unwrap()))
        .collect();
    let want = vec![
        ("0.0".to_string(), "1.5".to_string()),
        ("1e3".to_string(), "-2.5E-1".to_string()),
        ("8.25".to_string(), "9".to_string()),
    ];
    assert_eq!(got, want);
    assert_eq!(got[1].0.parse::<f32>().unwrap(), 1000.0);
}

#[test]
fn parse_file_without_marker_gives_nothing() {
    assert!(parse_file(b"1 2 3\n4 5 6\nEOF\n").is_empty());
    assert!(parse_file(b"").is_empty());
}

#[test]
fn parse_file_stops_at_a_second_marker() {
    let lines = parse_file(b"NODE_COORD_SECTION\n1 2 3\nNODE_COORD_SECTION\n4 5 6\n");
    assert_eq!(lines.len(), 1);
    assert_eq!(lines[0].x, b"2".to_vec());
    assert_eq!(lines[0].y, b"3".to_vec());
}

#[test]
fn parse_file_keeps_repeated_lines() {
    let lines = parse_file(b"NODE_COORD_SECTION\n1 2 3\n2 2 3\n3 2 3");
    assert_eq!(lines.len(), 3);
}

#[test]
fn find_from_gives_the_first_match() {
    assert_eq!(find_from(b"abcabc", b"bc", 0), 1);
    assert_eq!(find_from(b"abcabc", b"bc", 2), 4);
    assert_eq!(find_from(b"abcabc", b"bd", 0), 6);
    assert_eq!(find_from(b"ab", b"abc", 0), 2);
}

#[test]
fn section_lines_skips_short_lines() {
    let lines = section_lines(b"a b\n\nc d e f\n");
    assert_eq!(lines.len(), 1);
    assert_eq!(lines[0].x, b"d".to_vec());
    assert_eq!(lines[0].y, b"e".to_vec());
}

#[test]
fn sort_key_orders_by_x_then_y() {
    assert!(sort_key(pt(-1.0, 5.0)) < sort_key(pt(0.0, -5.0)));
    assert!(sort_key(pt(1.0, -5.0)) < sort_key(pt(1.0, 2.0)));
    assert!(sort_key(pt(1.0, 2.0)) < sort_key(pt(1.5, -9.0)));
}

#[test]
fn hull_of_square_with_center() {
    let mut points = unit_square();
    points.push(pt(0.5, 0.5));
    let hull = convex_hull(&points, &side);
    assert_eq!(hull, vec![pt(0.0, 0.0), pt(1.0, 0.0), pt(1.0, 1.0), pt(0.0, 1.0)]);
}

#[test]
fn hull_drops_points_on_an_edge() {
    let points = vec![pt(0.0, 0.0), pt(1.0, 0.0), pt(2.0, 0.0), pt(2.0, 2.0), pt(0.0, 2.0)];
    let hull = convex_hull(&points, &side);
    assert_eq!(hull, vec![pt(0.0, 0.0), pt(2.0, 0.0), pt(2.0, 2.0), pt(0.0, 2.0)]);
}

#[test]
fn hull_of_few_points_is_the_input() {
    let none: Vec<Point> = vec![];
    assert_eq!(convex_hull(&none, &side), none);
    let one = vec![pt(3.0, 4.0)];
    assert_eq!(convex_hull(&one, &side), one);
    let two = vec![pt(3.0, 4.0), pt(1.0, 2.0)];
    assert!(same_points(&convex_hull(&two, &side), &two));
}

#[test]
fn hull_of_a_line_is_its_two_ends() {
    let points = vec![pt(1.0, 0.0), pt(0.0, 0.0), pt(2.0, 0.0)];
    assert_eq!(convex_hull(&points, &side), vec![pt(0.0, 0.0), pt(2.0, 0.0)]);
}

#[test]
fn chain_pops_right_turns() {
    let sorted = vec![pt(0.0, 0.0), pt(1.0, 1.0), pt(2.0, 0.0)];
    assert_eq!(build_chain(&sorted, &side), vec![pt(0.0, 0.0), pt(2.0, 0.0)]);
    let sorted = vec![pt(0.0, 0.0), pt(1.0, -1.0), pt(2.0, 0.0)];
    assert_eq!(build_chain(&sorted, &side), sorted);
}

#[test]
fn uncrosser_turns_a_crossed_square() {
    let mut tour = vec![pt(0.0, 0.0), pt(1.0, 1.0), pt(1.0, 0.0), pt(0.0, 1.0)];
    assert_eq!(crossings(&tour), 1);
    assert!(eliminate_crossings(&mut tour, &side, &shorter));
    assert_eq!(tour, vec![pt(0.0, 0.0), pt(1.0, 0.0), pt(1.0, 1.0), pt(0.0, 1.0)]);
    assert!((path_dist(&tour) - 4.0).abs() < 1e-6);
    assert!(!eliminate_crossings(&mut tour, &side, &shorter));
}

#[test]
fn uncrosser_leaves_short_tours() {
    let mut tour = vec![pt(0.0, 0.0), pt(1.0, 1.0), pt(1.0, 0.0)];
    let before = tour.clone();
    assert!(!eliminate_crossings(&mut tour, &side, &shorter));
    assert_eq!(tour, before);
}

#[test]
fn second_uncrossing_finds_nothing() {
    let mut tour = scattered(60);
    eliminate_all_crossings(&mut tour, &side, &shorter, usize::MAX);
    assert_eq!(crossings(&tour), 0);
    let settled = tour.clone();
    assert!(!eliminate_all_crossings(&mut tour, &side, &shorter, usize::MAX));
    assert_eq!(tour, settled);
}

#[test]
fn uncrossing_respects_its_allowance() {
    let mut tour = scattered(60);
    let before = tour.clone();
    assert!(!eliminate_all_crossings(&mut tour, &side, &shorter, 0));
    assert_eq!(tour, before);
    assert!(eliminate_all_crossings(&mut tour, &side, &shorter, 1));
    assert!(same_points(&tour, &before));
    assert_ne!(tour, before);
}

#[test]
fn or_opt_move_sets_a_stretch_down() {
    let p = |i: u32| pt(i as f32, 0.0);
    let mut tour: Vec<Point> = (0..6).map(p).collect();
    perform_or_opt_move(&mut tour, 1, 2, 5);
    assert_eq!(tour, vec![p(0), p(3), p(4), p(1), p(2), p(5)]);
    let mut tour: Vec<Point> = (0..6).map(p).collect();
    perform_or_opt_move(&mut tour, 3, 2, 1);
    assert_eq!(tour, vec![p(0), p(3), p(4), p(1), p(2), p(5)]);
}

#[test]
fn or_opt_moves_a_misplaced_point() {
    let mut tour = vec![pt(0.0, 0.0), pt(2.0, 0.1), pt(1.0, 0.0), pt(3.0, 0.0), pt(3.0, 3.0), pt(0.0, 3.0)];
    let before = path_dist(&tour);
    assert_eq!(best_slot(&tour, 1, 1, &beats), Some(3));
    assert!(or_opt_optimization(&mut tour, 1, &beats));
    assert_eq!(
        tour,
        vec![pt(0.0, 0.0), pt(1.0, 0.0), pt(2.0, 0.1), pt(3.0, 0.0), pt(3.0, 3.0), pt(0.0, 3.0)]
    );
    assert!(path_dist(&tour) < before - 1e-6);
}

#[test]
fn or_opt_sweep_reports_no_move() {
    let mut tour = unit_square();
    tour.push(pt(-0.5, 0.5));
    let before = tour.clone();
    assert!(!or_opt_sweep(&mut tour, 1, &beats));
    assert_eq!(tour, before);
}

#[test]
fn or_opt_leaves_an_optimum_tour() {
    let mut tour = unit_square();
    let before = tour.clone();
    assert!(!multi_or_opt_optimization(&mut tour, &beats));
    assert_eq!(tour, before);
    let mut hexagon: Vec<Point> = (0..6)
        .map(|i| {
            let t = i as f32 * std::f32::consts::PI / 3.0;
            pt(t.cos(), t.sin())
        })
        .collect();
    let before = hexagon.clone();
    assert!(!multi_or_opt_optimization(&mut hexagon, &beats));
    assert_eq!(hexagon, before);
}

#[test]
fn or_opt_skips_tours_that_are_too_short() {
    let mut tour = vec![pt(0.0, 0.0), pt(2.0, 0.1), pt(1.0, 0.0)];
    let before = tour.clone();
    assert!(!or_opt_optimization(&mut tour, 2, &beats));
    assert_eq!(tour, before);
}

#[test]
fn lowest_records_come_lowest_first() {
    let rec = |s: f32, i: u32| InsertPointResult {
        lda: s.to_bits(),
        best_a: pt(0.0, 0.0),
        best_c: pt(i as f32, 0.0),
    };
    let log = vec![rec(5.0, 0), rec(1.0, 1), rec(3.0, 2), rec(0.5, 3), rec(4.0, 4), rec(1.0, 5)];
    let got = find_lowest_lda_points(&log, 3);
    assert_eq!(got, vec![pt(3.0, 0.0), pt(1.0, 0.0), pt(5.0, 0.0)]);
    assert!(find_lowest_lda_points(&log, 0).is_empty());
    assert_eq!(reluctant_points(&log, 17), vec![pt(3.0, 0.0), pt(1.0, 0.0)]);
    assert!(reluctant_points(&log, 7).is_empty());
    assert_eq!(find_lowest_lda_points(&log, 10).len(), 6);
}

#[test]
fn removal_goes_by_the_tolerance() {
    let mut hull = vec![pt(0.0, 0.0), pt(1.0, 1.0), pt(2.0, 2.0), pt(1.000001, 1.0)];
    let marks = vec![pt(1.0, 1.0)];
    assert!(is_struck(&near, &marks, pt(1.000001, 1.0)));
    assert!(!is_struck(&near, &marks, pt(1.1, 1.0)));
    remove_points_from_hull(&mut hull, &marks, &near);
    assert_eq!(hull, vec![pt(0.0, 0.0), pt(2.0, 2.0)]);
}

#[test]
fn grid_keeps_and_drops_points() {
    let points = vec![pt(0.0, 0.0), pt(1.0, 0.0), pt(1.0, 1.0), pt(0.0, 1.0), pt(0.5, 0.5)];
    let mut grid = SpatialGrid::new(&points, locator(&points));
    for p in &points {
        assert!(grid.contains_point(*p));
    }
    assert!(!grid.contains_point(pt(0.25, 0.25)));
    grid.remove_point(pt(0.5, 0.5));
    assert!(!grid.contains_point(pt(0.5, 0.5)));
    assert!(grid.contains_point(pt(1.0, 1.0)));
    grid.remove_point(pt(0.5, 0.5));
    grid.remove_point(pt(9.0, 9.0));
    assert!(grid.contains_point(pt(0.0, 1.0)));
}

#[test]
fn grid_queries_filter_by_radius() {
    let points = vec![pt(0.0, 0.0), pt(1.0, 0.0), pt(1.0, 1.0), pt(0.0, 1.0), pt(0.5, 0.5)];
    let (size, _, _) = cell_size_for(&points);
    let k = kernels(size);
    let grid = SpatialGrid::new(&points, locator(&points));
    let r = 0.75f32;
    let reach = (k.reach_of)(r.to_bits());
    let got = grid.query_radius(pt(0.0, 0.0), (r * r).to_bits(), reach, &k.dist_sq);
    assert!(same_points(&got, &[pt(0.0, 0.0), pt(0.5, 0.5)]));
    let got = grid.query_edge_candidates(
        pt(0.0, 0.0),
        pt(1.0, 0.0),
        pt(0.5, 0.0),
        (r * r).to_bits(),
        reach,
        &k.dist_sq,
    );
    assert!(same_points(&got, &[pt(0.0, 0.0), pt(0.5, 0.5), pt(1.0, 0.0)]));
    assert_eq!(got.len(), 3);
}

#[test]
fn candidates_are_capped() {
    let points = scattered(50);
    let grid = SpatialGrid::new(&points, locator(&points));
    assert_eq!(keep_present(&points, &grid, 64), points[..32].to_vec());
    assert_eq!(keep_present(&points, &grid, 8), points[..8].to_vec());
    assert_eq!(keep_present(&points, &grid, 0), points[..1].to_vec());
    let mut fewer = SpatialGrid::new(&points, locator(&points));
    fewer.remove_point(points[0]);
    assert_eq!(keep_present(&points, &fewer, 2), points[1..3].to_vec());
}

#[test]
fn records_are_compared_by_score() {
    let x = InsertPointResult { lda: 1.0f32.to_bits(), best_a: pt(0.0, 0.0), best_c: pt(1.0, 0.0) };
    let y = InsertPointResult { lda: 2.0f32.to_bits(), best_a: pt(0.0, 0.0), best_c: pt(2.0, 0.0) };
    let z = InsertPointResult { lda: 2.0f32.to_bits(), best_a: pt(0.0, 0.0), best_c: pt(3.0, 0.0) };
    assert_eq!(better_of(x, y), y);
    assert_eq!(better_of(y, x), y);
    assert_eq!(better_of(y, z), y);
    assert_eq!(better_of(sentinel(), x), x);
    assert_eq!(sentinel().lda, (-1.0f32).to_bits());
}

#[test]
fn step_allowances() {
    assert_eq!(adaptive_n(0), 8);
    assert_eq!(adaptive_n(79), 8);
    assert_eq!(adaptive_n(250), 25);
    assert_eq!(adaptive_n(10_000), 64);
    assert_eq!(iteration_cap(7), 14);
    assert_eq!(iteration_cap(usize::MAX), usize::MAX);
}

#[test]
fn selector_picks_the_center_of_the_square() {
    let hull = unit_square();
    let inner = vec![pt(0.5, 0.5)];
    let mut all = hull.clone();
    all.push(inner[0]);
    let (size, _, _) = cell_size_for(&all);
    let k = kernels(size);
    let grid = SpatialGrid::new(&inner, locator(&all));
    let got = insert_point(&hull, &grid, 8, &k);
    assert_eq!(got.best_c, pt(0.5, 0.5));
    assert_eq!(got.best_a, pt(0.0, 0.0));
    let want = lda(pt(0.0, 0.0), pt(1.0, 0.0), pt(0.5, 0.5));
    assert_eq!(got.lda, want.to_bits());
    let ((radius, radius_sq), reach) = search_frame(&hull, &k);
    assert_eq!(f32::from_bits(radius), 2.0);
    assert_eq!(f32::from_bits(radius_sq), 4.0);
    assert_eq!(edge_pick(&hull, 0, &grid, 8, radius_sq, reach, &k), got);
    let empty = SpatialGrid::new(&vec![], locator(&all));
    assert_eq!(insert_point(&hull, &empty, 8, &k), sentinel());
}

#[test]
fn fallback_takes_the_closest_pair() {
    let hull = vec![pt(0.0, 0.0), pt(10.0, 0.0)];
    let inner = vec![pt(5.0, 5.0), pt(9.0, 1.0), pt(1.0, 1.0)];
    let k = kernels(1.0);
    let got = nearest_pair(&hull, &inner, &k);
    assert_eq!(got, InsertPointResult { lda: TENTH, best_a: pt(10.0, 0.0), best_c: pt(9.0, 1.0) });
    let low = InsertPointResult { lda: 0.0f32.to_bits(), best_a: hull[0], best_c: inner[0] };
    assert_eq!(settle_pick(low, &hull, &inner, &k), got);
    assert_eq!(settle_pick(sentinel(), &hull, &inner, &k), got);
    let high = InsertPointResult { lda: 0.5f32.to_bits(), best_a: hull[0], best_c: inner[0] };
    assert_eq!(settle_pick(high, &hull, &inner, &k), high);
}

#[test]
fn update_sets_the_point_behind_its_anchor() {
    let mut hull = unit_square();
    let mut inner = vec![pt(0.5, 0.5), pt(0.25, 0.25)];
    let mut all = hull.clone();
    all.extend(inner.iter().copied());
    let mut grid = SpatialGrid::new(&inner, locator(&all));
    let mut log = Vec::new();
    let rec = InsertPointResult { lda: 1.0f32.to_bits(), best_a: pt(1.0, 0.0), best_c: pt(0.5, 0.5) };
    assert_eq!(position(&hull, pt(1.0, 0.0)), 1);
    assert_eq!(position(&hull, pt(7.0, 0.0)), 4);
    update_hull(&rec, &mut hull, &mut inner, &mut grid, &mut log);
    assert_eq!(hull, vec![pt(0.0, 0.0), pt(1.0, 0.0), pt(0.5, 0.5), pt(1.0, 1.0), pt(0.0, 1.0)]);
    assert_eq!(inner, vec![pt(0.25, 0.25)]);
    assert_eq!(log, vec![rec]);
    assert!(!grid.contains_point(pt(0.5, 0.5)));
    assert!(grid.contains_point(pt(0.25, 0.25)));
}

#[test]
fn one_step_moves_one_point() {
    let points = scattered(30);
    let mut hull = convex_hull(&points, &side);
    let mut inner = vec_diff(&points, &hull);
    let (size, _, _) = cell_size_for(&points);
    let k = kernels(size);
    let mut grid = SpatialGrid::new(&inner, locator(&points));
    let mut log = Vec::new();
    let (h, i) = (hull.len(), inner.len());
    expand_once(&mut hull, &mut inner, &mut grid, &mut log, &k);
    assert_eq!(hull.len(), h + 1);
    assert_eq!(inner.len(), i - 1);
    assert_eq!(log.len(), 1);
    assert!(hull.contains(&log[0].best_c));
    assert!(!grid.contains_point(log[0].best_c));
    for p in &inner {
        assert!(grid.contains_point(*p));
    }
}

#[test]
fn unit_square_tour() {
    let (tour, _) = solve(&unit_square(), true);
    assert_eq!(tour.len(), 4);
    assert!(same_points(&tour, &unit_square()));
    assert!((path_dist(&tour) - 4.0).abs() < 1e-6);
}

#[test]
fn square_with_center_tour() {
    let mut points = unit_square();
    points.push(pt(0.5, 0.5));
    let (tour, _) = solve(&points, true);
    assert_eq!(tour.len(), 5);
    assert!(same_points(&tour, &points));
    // the center goes between two neighbouring corners: three sides and two half diagonals
    assert!((path_dist(&tour) - (3.0 + 2.0f32.sqrt())).abs() < 1e-4);
    assert!(path_dist(&tour) <= 2.0 + 2.0 * 2.0f32.sqrt() + 1e-4);
}

#[test]
fn collinear_trio_tour() {
    let points = vec![pt(0.0, 0.0), pt(1.0, 0.0), pt(2.0, 0.0)];
    let (tour, _) = solve(&points, false);
    assert!(same_points(&tour, &points));
    assert!((path_dist(&tour) - 4.0).abs() < 1e-6);
}

#[test]
fn thousand_scattered_points() {
    let points = scattered(1000);
    let mut hull = convex_hull(&points, &side);
    let mut inner = vec_diff(&points, &hull);
    let (size, _, _) = cell_size_for(&points);
    let k = kernels(size);
    let mut grid = SpatialGrid::new(&inner, locator(&points));
    let mut log = Vec::new();
    let expected_log = inner.len();
    expand(&mut hull, &mut inner, &mut grid, &mut log, &k);
    assert!(inner.is_empty());
    assert_eq!(log.len(), expected_log);
    assert_eq!(hull.len(), 1000);
    assert!(same_points(&hull, &points));
    let raw = path_dist(&hull);
    eliminate_all_crossings(&mut hull, &side, &shorter, usize::MAX);
    assert_eq!(crossings(&hull), 0);
    multi_or_opt_optimization(&mut hull, &beats);
    assert_eq!(hull.len(), 1000);
    assert!(same_points(&hull, &points));
    assert!(path_dist(&hull) <= raw);
}

#[test]
fn cluster_and_three_corners() {
    let mut points = vec![pt(100.0, 0.0), pt(0.0, 100.0), pt(-100.0, -100.0)];
    for i in 0..100 {
        let t = i as f32 * 0.0628;
        points.push(pt(1e-3 * (1.0 + i as f32) * t.cos(), 1e-3 * (1.0 + i as f32) * t.sin()));
    }
    let (tour, _) = solve(&points, false);
    assert_eq!(tour.len(), 103);
    assert!(same_points(&tour, &points));
}

#[test]
fn empty_input_gives_an_empty_tour() {
    let (tour, _) = solve(&vec![], true);
    assert!(tour.is_empty());
    let (tour, _) = solve(&vec![], true);
    assert!(tour.is_empty());
}

#[test]
fn expansion_grows_the_tour_to_all_points() {
    let points = scattered(200);
    let (tour, _) = solve(&points, false);
    assert_eq!(tour.len(), points.len());
    assert!(same_points(&tour, &points));
}

fn lines_of(tour: &[Point]) -> Vec<NodeLine> {
    tour.iter()
        .map(|p| NodeLine {
            x: format!("{:e}", px(*p)).into_bytes(),
            y: format!("{:e}", py(*p)).into_bytes(),
        })
        .collect()
}

fn points_of(lines: &[NodeLine]) -> Vec<Point> {
    lines
        .iter()
        .map(|l| {
            pt(
                String::from_utf8(l.x.clone()).unwrap().parse::<f32>().unwrap(),
                String::from_utf8(l.y.clone()).unwrap().parse::<f32>().unwrap(),
            )
        })
        .collect()
}

#[test]
fn written_file_has_the_expected_text() {
    let lines = vec![
        NodeLine { x: b"0".to_vec(), y: b"1.5".to_vec() },
        NodeLine { x: b"-2e1".to_vec(), y: b"7".to_vec() },
    ];
    let text = write_file(&lines);
    assert_eq!(
        String::from_utf8(text).unwrap(),
        "TYPE : TSP\nNODE_COORD_SECTION\n1 0 1.5\n2 -2e1 7\nEOF\n"
    );
    assert_eq!(
        String::from_utf8(write_file(&vec![])).unwrap(),
        "TYPE : TSP\nNODE_COORD_SECTION\nEOF\n"
    );
}

#[test]
fn written_lines_are_numbered_in_decimal() {
    let lines: Vec<NodeLine> = (0..12).map(|_| NodeLine { x: b"1".to_vec(), y: b"2".to_vec() }).collect();
    let text = String::from_utf8(write_file(&lines)).unwrap();
    assert!(text.contains("\n9 1 2\n10 1 2\n11 1 2\n12 1 2\nEOF\n"));
}

#[test]
fn written_tour_reads_back() {
    let (tour, _) = solve(&scattered(100), true);
    let text = write_file(&lines_of(&tour));
    let back = parse_file(&text);
    assert_eq!(back, lines_of(&tour));
    assert_eq!(points_of(&back), tour);
}

#[test]
fn written_tour_with_repeats_keeps_its_size() {
    let tour = vec![pt(1.0, 2.0), pt(1.0, 2.0), pt(-0.5, 1e-20), pt(1.0, 2.0), pt(3.25e10, -7.0)];
    let back = parse_file(&write_file(&lines_of(&tour)));
    assert_eq!(back.len(), 5);
    assert_eq!(points_of(&back), tour);
}

#[test]
fn empty_tour_reads_back_empty() {
    assert!(parse_file(&write_file(&vec![])).is_empty());
}

#[test]
fn segments_cross_only_properly() {
    let (a, b) = (pt(0.0, 0.0), pt(2.0, 2.0));
    assert!(segments_intersect(&side, a, b, pt(0.0, 2.0), pt(2.0, 0.0)));
    assert!(segments_intersect(&side, pt(0.0, 2.0), pt(2.0, 0.0), a, b));
    // touching at an end, lying on one line, and apart
    assert!(!segments_intersect(&side, a, b, pt(1.0, 1.0), pt(2.0, 0.0)));
    assert!(!segments_intersect(&side, a, b, pt(1.0, 1.0), pt(3.0, 3.0)));
    assert!(!segments_intersect(&side, a, b, pt(3.0, 0.0), pt(4.0, 1.0)));
    assert!(!segments_intersect(&side, a, b, pt(f32::NAN, 2.0), pt(2.0, 0.0)));
}

#[test]
fn candidates_are_scored_in_blocks_of_eight() {
    let a = pt(0.0, 0.0);
    let b = pt(20.0, 0.0);
    let k = kernels(1.0);
    // nineteen candidates above the edge, ever closer to it: the last one scores highest
    let cands: Vec<Point> = (0..19).map(|i| pt(1.0 + i as f32, 20.0 - i as f32)).collect();
    let got = edge_best(a, b, &cands, &k);
    let mut want = (f32::from_bits(MINUS_ONE), pt(0.0, 0.0));
    for c in &cands {
        if lda(a, b, *c) > want.0 {
            want = (lda(a, b, *c), *c);
        }
    }
    assert_eq!(got, InsertPointResult { lda: want.0.to_bits(), best_a: a, best_c: want.1 });
    assert_eq!(got.best_c, pt(19.0, 2.0));
    assert_eq!(edge_best(a, b, &vec![], &k), sentinel());
}

#[test]
fn padded_lanes_do_not_win() {
    // the origin, with which blocks are padded, lies on the edge and would score highest
    let a = pt(-1.0, 0.0);
    let b = pt(1.0, 0.0);
    let k = kernels(1.0);
    let pad = lda(a, b, pt(0.0, 0.0));
    let far = lda(a, b, pt(0.0, 5.0));
    assert!(pad > far);
    let got = edge_best(a, b, &vec![pt(0.0, 5.0)], &k);
    assert_eq!(got, InsertPointResult { lda: far.to_bits(), best_a: a, best_c: pt(0.0, 5.0) });
}

#[test]
fn primed_grid_keeps_what_is_off_the_tour() {
    let mut points = unit_square();
    points.push(pt(0.5, 0.5));
    points.push(pt(0.25, 0.75));
    let hull = convex_hull(&points, &side);
    let grid = SpatialGrid::primed(&points, &hull, locator(&points));
    for p in &hull {
        assert!(!grid.contains_point(*p));
    }
    assert!(grid.contains_point(pt(0.5, 0.5)));
    assert!(grid.contains_point(pt(0.25, 0.75)));
}

#[test]
fn construct_builds_a_tour_through_all_points() {
    let points = scattered(150);
    let (size, _, _) = cell_size_for(&points);
    let (tour, log) = construct(&points, &side, locator(&points), &kernels(size));
    assert_eq!(tour.len(), 150);
    assert!(same_points(&tour, &points));
    let hull = convex_hull(&points, &side);
    assert_eq!(log.len(), 150 - hull.len());
    let (same, _) = solve(&points, false);
    assert_eq!(tour, same);
    let (none, log) = construct(&vec![], &side, locator(&points), &kernels(size));
    assert!(none.is_empty() && log.is_empty());
}

#[test]
fn few_points_are_their_own_tour() {
    for n in 0..3usize {
        let points: Vec<Point> = (0..n).map(|i| pt(i as f32, 2.0 * i as f32)).collect();
        let (tour, log) = construct(&points, &side, locator(&points), &kernels(1.0));
        assert_eq!(tour, points);
        assert!(log.is_empty());
        let back = parse_file(&write_file(&lines_of(&tour)));
        assert_eq!(points_of(&back), points);
    }
}

#[test]
fn crossing_that_gains_nothing_in_single_precision_stays() {
    // two long edges that cross at a flat angle: the lengths round to the same sums
    let mut tour = vec![pt(0.0, 0.0), pt(1e8, 1.0), pt(1e8, 0.0), pt(0.0, 1.0)];
    assert!(segments_intersect(&side, tour[0], tour[1], tour[2], tour[3]));
    assert_eq!(
        shorter(tour[0], tour[1], tour[2], tour[3]),
        shorter(tour[0], tour[2], tour[1], tour[3])
    );
    let before = tour.clone();
    assert!(!eliminate_crossings(&mut tour, &side, &shorter));
    assert_eq!(tour, before);
}

#[test]
fn uncrosser_takes_the_first_pair_in_order() {
    // edges 0 and 2 cross, and so do edges 1 and 3: the pair of edge 0 is exchanged
    let mut tour = vec![
        pt(0.0, 0.0),
        pt(4.0, 4.0),
        pt(4.0, 0.0),
        pt(0.0, 4.0),
        pt(6.0, 9.0),
        pt(-3.0, 9.0),
    ];
    let mut want = tour.clone();
    want[1..=2].reverse();
    assert!(segments_intersect(&side, tour[0], tour[1], tour[2], tour[3]));
    assert!(eliminate_crossings(&mut tour, &side, &shorter));
    assert_eq!(tour, want);
}

#[test]
fn constants_are_the_numbers_they_stand_for() {
    assert_eq!(MARGIN, 1e-6f32.to_bits());
    assert_eq!(EPS, 1e-5f32.to_bits());
    assert_eq!(HUNDRED, 100.0f32.to_bits());
    assert_eq!(HUNDRED_SQUARED, 10000.0f32.to_bits());
    assert_eq!(INFINITE, f32::INFINITY.to_bits());
    assert_eq!(MINUS_INFINITE, f32::NEG_INFINITY.to_bits());
}

#[test]
fn turns_follow_the_sign_of_the_cross_product() {
    assert_eq!(side_from(2.5f32.to_bits()), Side::Left);
    assert_eq!(side_from((-1e-30f32).to_bits()), Side::Right);
    assert_eq!(side_from(0.0f32.to_bits()), Side::Straight);
    assert_eq!(side_from((-0.0f32).to_bits()), Side::Straight);
    assert_eq!(side_from(f32::NAN.to_bits()), Side::Unknown);
}

#[test]
fn not_above_is_at_most() {
    assert!(not_above(1.0f32.to_bits(), 1.0f32.to_bits()));
    assert!(not_above((-3.0f32).to_bits(), 1.0f32.to_bits()));
    assert!(!not_above(1.5f32.to_bits(), 1.0f32.to_bits()));
    assert!(!not_above(f32::NAN.to_bits(), 1.0f32.to_bits()));
    assert!(not_above((-0.0f32).to_bits(), 0.0f32.to_bits()));
}

#[test]
fn short_tours_search_within_a_hundred() {
    let k = kernels(30.0);
    let two = vec![pt(0.0, 0.0), pt(1.0, 0.0)];
    let ((radius, radius_sq), reach) = search_frame(&two, &k);
    assert_eq!((radius, radius_sq), (HUNDRED, HUNDRED_SQUARED));
    assert_eq!(reach, 4);
    // a radius that spans no cell still looks one cell to either side
    let k = kernels(f32::INFINITY);
    let (_, reach) = search_frame(&unit_square(), &k);
    assert_eq!(reach, 1);
}

#[test]
fn a_gain_at_the_margin_is_not_enough() {
    // moving the middle point over gains exactly nothing
    let mut tour = vec![pt(0.0, 0.0), pt(1.0, 0.0), pt(2.0, 0.0), pt(2.0, 2.0), pt(0.0, 2.0)];
    let before = tour.clone();
    assert_eq!(best_slot(&tour, 1, 1, &beats), None);
    assert!(!or_opt_optimization(&mut tour, 1, &beats));
    assert_eq!(tour, before);
}

#[test]
fn bounding_box_spans_the_points() {
    let points = vec![pt(1.0, -2.0), pt(-3.5, 4.0), pt(f32::NAN, 0.5), pt(2.0, f32::NAN)];
    let want = Bounds {
        min_x: (-3.5f32).to_bits(),
        max_x: 2.0f32.to_bits(),
        min_y: (-2.0f32).to_bits(),
        max_y: 4.0f32.to_bits(),
    };
    assert_eq!(bounding_box(&points), want);
    let none = Bounds { min_x: INFINITE, max_x: MINUS_INFINITE, min_y: INFINITE, max_y: MINUS_INFINITE };
    assert_eq!(bounding_box(&vec![]), none);
}
