use palettefit::color::Rgb8;
use palettefit::quantize::{histogram, median_cut, Cluster};

fn weight(c: &Cluster, clusters: &[Cluster]) -> f64 {
    let total: u64 = clusters.iter().map(|c| c.count).sum();
    c.count as f64 / total as f64
}

fn repeat(c: Rgb8, n: usize) -> Vec<Rgb8> {
    vec![c; n]
}

#[test]
fn three_solid_colors_come_back_exactly() {
    let red = Rgb8::new(230, 57, 70);
    let blue = Rgb8::new(69, 123, 157);
    let cream = Rgb8::new(241, 250, 238);
    let mut pixels = repeat(red, 500);
    pixels.extend(repeat(blue, 300));
    pixels.extend(repeat(cream, 200));
    let clusters = median_cut(histogram(&pixels), 3);
    assert_eq!(clusters.len(), 3);
    assert_eq!(clusters[0].color, red);
    assert_eq!(clusters[1].color, blue);
    assert_eq!(clusters[2].color, cream);
    assert!((weight(&clusters[0], &clusters) - 0.5).abs() < 1e-9);
}

#[test]
fn fewer_colors_than_k_does_not_pad() {
    let clusters = median_cut(histogram(&vec![Rgb8::new(1, 2, 3); 10]), 8);
    assert_eq!(clusters.len(), 1);
    assert_eq!(clusters[0].color, Rgb8::new(1, 2, 3));
    assert!((weight(&clusters[0], &clusters) - 1.0).abs() < 1e-9);
}

#[test]
fn deterministic_regardless_of_input_order() {
    let mut a = Vec::new();
    for i in 0..64u8 {
        for _ in 0..=i {
            a.push(Rgb8::new(i * 4, 255 - i * 2, i));
        }
    }
    let mut b = a.clone();
    b.reverse();
    let ca = median_cut(histogram(&a), 5);
    let cb = median_cut(histogram(&b), 5);
    let key = |cs: &[Cluster]| -> Vec<(String, u64)> {
        cs.iter()
            .map(|c| (c.color.hex(), (weight(c, cs) * 1e12) as u64))
            .collect()
    };
    assert_eq!(key(&ca), key(&cb));
}

#[test]
fn empty_input_yields_empty_palette() {
    assert!(median_cut(histogram(&Vec::<Rgb8>::new()), 4).is_empty());
}

#[test]
fn histogram_counts_each_color_once_in_ascending_order() {
    let a = Rgb8::new(9, 9, 9);
    let b = Rgb8::new(1, 200, 3);
    let c = Rgb8::new(1, 2, 3);
    let h = histogram(&vec![a, b, a, c, b, a]);
    assert_eq!(h, vec![(c, 1), (b, 2), (a, 3)]);
}

#[test]
fn histogram_of_shuffled_pixels_is_the_same() {
    let px = vec![
        Rgb8::new(5, 0, 0),
        Rgb8::new(0, 5, 0),
        Rgb8::new(5, 0, 0),
        Rgb8::new(0, 0, 5),
    ];
    let shuffled = vec![px[3], px[0], px[1], px[2]];
    assert_eq!(histogram(&px), histogram(&shuffled));
}

#[test]
fn zero_clusters_asked_gives_none() {
    let h = histogram(&vec![Rgb8::new(1, 2, 3), Rgb8::new(4, 5, 6)]);
    assert!(median_cut(h, 0).is_empty());
}

#[test]
fn cluster_counts_add_up_and_stay_within_k() {
    let mut px = Vec::new();
    for i in 0..40u8 {
        for _ in 0..(i % 7 + 1) {
            px.push(Rgb8::new(i * 6, 100, 255 - i * 3));
        }
    }
    let h = histogram(&px);
    for k in 1..10 {
        let cs = median_cut(h.clone(), k);
        assert!(!cs.is_empty() && cs.len() <= k);
        let total: u64 = cs.iter().map(|c| c.count).sum();
        assert_eq!(total, px.len() as u64);
        for w in cs.windows(2) {
            assert!(
                w[0].count > w[1].count
                    || (w[0].count == w[1].count && w[0].color <= w[1].color)
            );
        }
    }
}

#[test]
fn one_split_halves_by_weighted_median_and_rounds_the_means() {
    // Two colors differing only in red: a single split separates them.
    let h = vec![(Rgb8::new(10, 0, 0), 3), (Rgb8::new(20, 0, 0), 1)];
    let one = median_cut(h.clone(), 1);
    // Mean red (30 + 20) / 4 = 12.5 rounds half away from zero to 13.
    assert_eq!(one, vec![Cluster { color: Rgb8::new(13, 0, 0), count: 4 }]);
    let two = median_cut(h, 2);
    assert_eq!(
        two,
        vec![
            Cluster { color: Rgb8::new(10, 0, 0), count: 3 },
            Cluster { color: Rgb8::new(20, 0, 0), count: 1 },
        ]
    );
}

#[test]
fn equal_weights_come_in_ascending_color_order() {
    let h = histogram(&vec![Rgb8::new(200, 0, 0), Rgb8::new(0, 0, 200)]);
    let cs = median_cut(h, 2);
    assert_eq!(cs[0].color, Rgb8::new(0, 0, 200));
    assert_eq!(cs[1].color, Rgb8::new(200, 0, 0));
}

#[test]
fn at_most_k_colors_come_back_with_their_counts() {
    let px = vec![
        Rgb8::new(9, 9, 9),
        Rgb8::new(1, 200, 3),
        Rgb8::new(9, 9, 9),
        Rgb8::new(250, 0, 0),
    ];
    for k in 3..6 {
        let cs = median_cut(histogram(&px), k);
        assert_eq!(
            cs,
            vec![
                Cluster { color: Rgb8::new(9, 9, 9), count: 2 },
                Cluster { color: Rgb8::new(1, 200, 3), count: 1 },
                Cluster { color: Rgb8::new(250, 0, 0), count: 1 },
            ]
        );
    }
}

#[test]
fn entries_in_any_order_give_the_same_clusters() {
    let mut a = Vec::new();
    for i in 0..64u8 {
        for _ in 0..=i {
            a.push(Rgb8::new(i * 4, 255 - i * 2, i));
        }
    }
    let h = histogram(&a);
    let mut r = h.clone();
    r.reverse();
    let mut shuffled = Vec::new();
    for i in 0..h.len() {
        shuffled.push(h[(i * 37) % h.len()]);
    }
    for k in [1, 2, 5, 9, 64, 70] {
        let base = median_cut(h.clone(), k);
        assert_eq!(median_cut(r.clone(), k), base);
        assert_eq!(median_cut(shuffled.clone(), k), base);
    }
}

#[test]
fn distinct_colors_give_min_of_k_and_n_clusters_all_with_pixels() {
    let mut px = Vec::new();
    for i in 0..20u8 {
        for _ in 0..(i % 3 + 1) {
            px.push(Rgb8::new(i * 11, i * 7, 255 - i * 5));
        }
    }
    let h = histogram(&px);
    assert_eq!(h.len(), 20);
    for k in 0..30usize {
        let cs = median_cut(h.clone(), k);
        assert_eq!(cs.len(), k.min(20));
        assert!(cs.iter().all(|c| c.count > 0));
    }
}
