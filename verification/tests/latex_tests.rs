//! Vector and grid behaviour on concrete values. Coordinates are fixed
//! point: one world unit is 1000.

use latex_sim::latex::Latex2D;
use latex_sim::vec2::Vec2;

#[test]
fn test_vec() {
    let w: i64 = 10_000;
    let h: i64 = 10_000;

    let v1 = Vec2 { x: w - 1_000, y: 0 };
    let v2 = Vec2 { x: w - 2_000, y: 0 };
    let rel = v1.rel(&v2, w, h);
    println!("{:?}", rel);
    assert_eq!(rel.dist(&v1), 1_000);

    let v1 = Vec2 { x: w - 1_000, y: 0 };
    let v2 = Vec2 { x: 1_000, y: 0 };
    let rel = v1.rel(&v2, w, h);
    println!("{:?}", rel);
    assert_eq!(rel.dist(&v1), 2_000);

    let v1 = Vec2 { x: 1_000, y: 0 };
    let v2 = Vec2 { x: w - 1_000, y: 0 };
    let rel = v1.rel(&v2, w, h);
    println!("{:?}", rel);
    assert_eq!(rel.dist(&v1), 2_000);

    let v1 = Vec2 { x: 1_000, y: 0 };
    let v2 = Vec2 { x: 2_000, y: 0 };
    let rel = v1.rel(&v2, w, h);
    println!("{:?}", rel);
    assert_eq!(rel.dist(&v1), 1_000);
}

#[test]
fn test_latex() {
    let res: i64 = 10_000;
    let w: i64 = 100_000;
    let h: i64 = 100_000;
    let mut latex = Latex2D::new(res, res, w, h);
    latex.add((0, 0), 1);
    assert_eq!(latex.get((0, 0), 2_000), vec![1]);
    assert_eq!(latex.get((0, 0), 10_000), vec![1]);
    assert_eq!(latex.get((0, 0), 20_000), vec![1]);
    assert_eq!(latex.get((0, 0), 1_000_000), vec![1]);
    assert_eq!(latex.get((w, h), 2_000), vec![1]);
    assert_eq!(latex.get((w, h), 10_000), vec![1]);
    assert_eq!(latex.get((w, h), 20_000), vec![1]);
    assert_eq!(latex.get((w, h), 1_000_000), vec![1]);
    assert_eq!(latex.get((w, h - 3_000), 2_000), vec![] as Vec<usize>);
    assert_eq!(latex.get((w, h - 3_000), 3_000), vec![1]);
    assert_eq!(latex.get((0, 9_000), 2_000), vec![1]);

    assert_eq!(latex.get((0, -9_000), 2_000), vec![] as Vec<usize>);
    assert_eq!(latex.get((0, -9_000), 10_000), vec![1]);

    assert_eq!(latex.get((w, h + 3_000), 3_000), vec![1]);
    assert_eq!(latex.get((w, h), 10_000), vec![1]);
    assert_eq!(latex.get((w, h), 20_000), vec![1]);
    assert_eq!(latex.get((w, h), 1_000_000), vec![1]);
}

#[test]
fn test_latex2() {
    let res: i64 = 10_000;
    let w: i64 = 100_000;
    let h: i64 = 100_000;
    let mut latex = Latex2D::new(res, res, w, h);
    latex.add((99_000, 99_000), 1);
    latex.add((51_000, 0), 2);
    latex.add((50_000, 0), 3);
    assert_eq!(latex.get((0, 0), 2_000), vec![1]);
    assert_eq!(latex.get((50_000, 0), 10_000), vec![2, 3]);
}

#[test]
fn test_latex3() {
    let res: i64 = 10_000;
    let w: i64 = 100_000;
    let h: i64 = 100_000;
    let mut latex = Latex2D::new(res, res, w, h);
    latex.add((99_000, 99_000), 1);
    latex.add((51_000, 0), 2);
    latex.add((50_000, 0), 3);
    assert_eq!(latex.get((0, 0), 2_000), vec![1]);
    assert_eq!(latex.get((50_000, 0), 10_000), vec![2, 3]);
}

#[test]
fn query_wraparound_hit() {
    // A grid with cells of 10 units over a 100 by 100 world holding one
    // element at (99, 99): a query at the origin with radius 2 must find
    // it across the wrap, and a grid holding an element at (50, 50) must
    // come back empty for the same query.
    let mut latex = Latex2D::new(10_000, 10_000, 100_000, 100_000);
    latex.add((99_000, 99_000), 0);
    assert_eq!(latex.get((0, 0), 2_000), vec![0]);

    let mut centre = Latex2D::new(10_000, 10_000, 100_000, 100_000);
    centre.add((50_000, 50_000), 0);
    assert_eq!(centre.get((0, 0), 2_000), vec![] as Vec<usize>);
}

#[test]
fn exhaustive_covers_windowed_candidates() {
    // The windowed candidates are always among what the exhaustive scan
    // visits: with an unlimited radius the filter passes everything, so
    // the exhaustive query lists every stored element.
    let mut latex = Latex2D::new(10_000, 10_000, 100_000, 100_000);
    latex.add((99_000, 99_000), 7);
    latex.add((51_000, 0), 8);
    latex.add((12_000, 47_000), 9);
    let candidates = latex.get((0, 0), 15_000);
    let everything = latex.get_safe((0, 0), 400_000_000);
    let all_ids: Vec<usize> = everything.iter().map(|e| e.0).collect();
    for id in candidates {
        assert!(all_ids.contains(&id));
    }
}

#[test]
fn exhaustive_filters_by_toroidal_distance() {
    let mut latex = Latex2D::new(10_000, 10_000, 100_000, 100_000);
    latex.add((99_000, 99_000), 1);
    latex.add((50_000, 50_000), 2);
    // Across the wrap, (99, 99) is ~1.41 units from the origin.
    let near = latex.get_safe((0, 0), 2_000);
    assert_eq!(near.len(), 1);
    assert_eq!(near[0].0, 1);
    // The centre agent is ~70 units away either way.
    let wider = latex.get_safe((0, 0), 80_000);
    assert_eq!(wider.len(), 2);
}

#[test]
fn vsize_dimensions() {
    let latex = Latex2D::new(10_000, 20_000, 100_000, 100_000);
    assert_eq!(latex.vsize(), (10, 5));
}

#[test]
fn dist_mod_never_exceeds_dist() {
    let w: i64 = 100_000;
    let h: i64 = 100_000;
    let pts = [
        (0i64, 0i64),
        (99_000, 99_000),
        (1_000, 98_000),
        (50_000, 50_000),
        (73_500, 12_250),
    ];
    for a in pts.iter() {
        for b in pts.iter() {
            let va = Vec2 { x: a.0, y: a.1 };
            let vb = Vec2 { x: b.0, y: b.1 };
            assert!(va.dist_mod(&vb, w, h) <= va.dist(&vb));
            assert_eq!(va.dist_mod(&vb, w, h), vb.dist_mod(&va, w, h));
            // never farther than half the world diagonal
            assert!(va.dist_mod(&vb, w, h) <= 70_711);
        }
    }
    let va = Vec2 { x: 99_000, y: 0 };
    let vb = Vec2 { x: 1_000, y: 0 };
    assert_eq!(va.dist(&vb), 98_000);
    assert_eq!(va.dist_mod(&vb, w, h), 2_000);
}

#[test]
fn vector_operations() {
    let mut v = Vec2::new_from(3_000, 4_000);
    assert_eq!(v.mag(), 5_000);
    v.norm(1_000);
    assert_eq!((v.x, v.y), (600, 800));

    let mut u = Vec2::new_from(3_000, 4_000);
    u.limit(1_000);
    assert_eq!(u.mag(), 1_000);

    let mut z = Vec2::new_from(300, 400);
    z.limit(1_000);
    assert_eq!((z.x, z.y), (300, 400));

    let mut lm = Vec2::new_from(300, 400);
    lm.limit_min(1_000);
    assert_eq!((lm.x, lm.y), (600, 800));

    let mut s = Vec2::new_from(2_000, -1_000);
    s.add(&Vec2::new_from(500, 500));
    assert_eq!((s.x, s.y), (2_500, -500));
    s.sub(&Vec2::new_from(500, 500));
    assert_eq!((s.x, s.y), (2_000, -1_000));
    s.mul(2_000);
    assert_eq!((s.x, s.y), (4_000, -2_000));
    s.div(2_000);
    assert_eq!((s.x, s.y), (2_000, -1_000));
    s.div(-1_000);
    assert_eq!((s.x, s.y), (-2_000, 1_000));

    assert_eq!(Vec2::new_from(1_000, 2_000).squared_dist(&Vec2::new()), 5_000_000);
    assert_eq!(Vec2::new_from(1_000, 2_000).square_dist(&Vec2::new()), 3_000);
    assert_eq!(Vec2::from_tuple(&(7, -9)).as_tuple(), (7, -9));
}

#[test]
fn scalar_helpers() {
    assert_eq!(latex_sim::fp::isqrt(0), 0);
    assert_eq!(latex_sim::fp::isqrt(99), 9);
    assert_eq!(latex_sim::fp::isqrt(100), 10);
    assert_eq!(latex_sim::fp::isqrt(u64::MAX), 4_294_967_295);
    assert_eq!(latex_sim::fp::exp_fp(0), 1_000);
    assert_eq!(latex_sim::fp::exp_fp(1_000), 2_718);
    assert_eq!(latex_sim::fp::exp_fp(500), 1_645);
    assert_eq!(latex_sim::fp::exp_fp(10_000), 22_026_465);
    assert_eq!(latex_sim::fp::fdiv(-2_000, 10_000), -1);
    assert_eq!(latex_sim::fp::fdiv(2_000, 10_000), 0);
    assert_eq!(latex_sim::fp::emod(-11_000, 10_000), 9_000);
    assert_eq!(latex_sim::fp::mul_fp(2_500, -400), -1_000);
}

#[test]
fn oversized_radius_degrades_to_full_scan() {
    // A radius reaching half the smaller world extent scans the whole
    // grid: on a 100 by 40 world, radius 20 covers half the height, so
    // even an element far outside the x window must be found.
    let mut latex = Latex2D::new(10_000, 10_000, 100_000, 40_000);
    latex.add((90_000, 0), 5);
    assert_eq!(latex.get((30_000, 20_000), 20_000), vec![5]);
    // below that threshold the x window stays narrow and misses it
    assert_eq!(
        latex.get((30_000, 20_000), 15_000),
        vec![] as Vec<usize>
    );
}
