use palettefit::check::{check, extract_k, verdict, CheckReport, ColorStatus, Thresholds, Verdict};
use palettefit::color::Rgb8;
use palettefit::order::key_of_bits;
use palettefit::palette::{Palette, PaletteColor};
use palettefit::quantize::Cluster;

const RED: (u8, u8, u8) = (230, 57, 70);
const BLUE: (u8, u8, u8) = (69, 123, 157);

/// CIEDE2000 distances between the colors these tests use.
fn delta_e(a: (u8, u8, u8), b: (u8, u8, u8)) -> f64 {
    if a == b {
        return 0.0;
    }
    let pairs: [((u8, u8, u8), (u8, u8, u8), f64); 5] = [
        (RED, BLUE, 47.79672890155354),
        (RED, (60, 160, 60), 71.56211593993487),
        (BLUE, (60, 160, 60), 43.49270189450879),
        (RED, (222, 66, 82), 3.0942940198418016),
        (RED, (20, 200, 20), 80.70275914184745),
    ];
    for &(x, y, d) in &pairs {
        if (x, y) == (a, b) || (y, x) == (a, b) {
            return d;
        }
    }
    panic!("no distance known for {a:?} and {b:?}");
}

fn key(d: f64) -> u64 {
    key_of_bits(d.to_bits())
}

fn palette_of(colors: &[(u8, u8, u8)]) -> Palette {
    Palette {
        name: None,
        source: None,
        colors: colors
            .iter()
            .map(|&(r, g, b)| PaletteColor {
                color: Rgb8::new(r, g, b),
                weight: None,
                label: None,
            })
            .collect(),
    }
}

fn clusters_of(colors: &[((u8, u8, u8), u64)]) -> Vec<Cluster> {
    colors
        .iter()
        .map(|&((r, g, b), count)| Cluster {
            color: Rgb8::new(r, g, b),
            count,
        })
        .collect()
}

struct Limits {
    warn_delta: f64,
    fail_delta: f64,
    max_foreign: Option<f64>,
    strict: bool,
}

impl Default for Limits {
    fn default() -> Self {
        Limits {
            warn_delta: 3.0,
            fail_delta: 8.0,
            max_foreign: None,
            strict: false,
        }
    }
}

struct Outcome {
    report: CheckReport,
    foreign_share: f64,
    verdict: Verdict,
}

fn run(p: &Palette, c: &Vec<Cluster>, l: &Limits) -> Outcome {
    let rgb = |x: Rgb8| (x.r, x.g, x.b);
    let dist: Vec<Vec<u64>> = p
        .colors
        .iter()
        .map(|pc| c.iter().map(|cl| key(delta_e(rgb(pc.color), rgb(cl.color)))).collect())
        .collect();
    let t = Thresholds {
        warn_delta: key(l.warn_delta),
        fail_delta: key(l.fail_delta),
        strict: l.strict,
    };
    let report = check(p, c, &dist, &t);
    let total: u64 = c.iter().map(|x| x.count).sum();
    let foreign_share: f64 = report
        .foreign
        .iter()
        .map(|f| f.count as f64 / total as f64)
        .sum();
    let over = l.max_foreign.is_some_and(|m| foreign_share > m);
    let v = verdict(&report, &t, over);
    Outcome {
        report,
        foreign_share,
        verdict: v,
    }
}

#[test]
fn exact_match_passes() {
    let p = palette_of(&[RED, BLUE]);
    let c = clusters_of(&[(RED, 6), (BLUE, 4)]);
    let r = run(&p, &c, &Limits::default());
    assert_eq!(r.verdict, Verdict::Pass);
    assert!(r.report.foreign.is_empty());
    assert_eq!(r.report.colors[0].delta_e, Some(key(0.0)));
}

#[test]
fn replaced_color_is_missing_and_foreign() {
    let p = palette_of(&[RED, BLUE]);
    // Blue jacket got recolored green.
    let c = clusters_of(&[(RED, 6), ((60, 160, 60), 4)]);
    let r = run(&p, &c, &Limits::default());
    assert_eq!(r.verdict, Verdict::Fail);
    assert_eq!(r.report.colors[1].status, ColorStatus::Missing);
    assert_eq!(r.report.foreign.len(), 1);
    assert!((r.foreign_share - 0.4).abs() < 1e-9);
}

#[test]
fn small_shift_warns_and_strict_fails_it() {
    let p = palette_of(&[RED]);
    // A nudge of a few RGB steps: perceptible but present.
    let c = clusters_of(&[((222, 66, 82), 1)]);
    let base = run(&p, &c, &Limits::default());
    assert_eq!(base.report.colors[0].status, ColorStatus::Drift);
    assert_eq!(base.verdict, Verdict::Warn);
    let strict = run(
        &p,
        &c,
        &Limits {
            strict: true,
            ..Limits::default()
        },
    );
    assert_eq!(strict.verdict, Verdict::Fail);
}

#[test]
fn max_foreign_gate() {
    let p = palette_of(&[RED]);
    let c = clusters_of(&[(RED, 7), ((20, 200, 20), 3)]);
    let lenient = run(&p, &c, &Limits::default());
    assert_eq!(lenient.verdict, Verdict::Pass);
    let gated = run(
        &p,
        &c,
        &Limits {
            max_foreign: Some(0.2),
            ..Limits::default()
        },
    );
    assert_eq!(gated.verdict, Verdict::Fail);
}

#[test]
fn empty_image_reports_missing() {
    let p = palette_of(&[RED]);
    let r = run(&p, &Vec::new(), &Limits::default());
    assert_eq!(r.report.colors[0].status, ColorStatus::Missing);
    assert_eq!(r.verdict, Verdict::Fail);
}

#[test]
fn extract_k_doubles_the_palette_within_bounds() {
    assert_eq!(extract_k(0), 12);
    assert_eq!(extract_k(5), 12);
    assert_eq!(extract_k(6), 12);
    assert_eq!(extract_k(7), 14);
    assert_eq!(extract_k(16), 32);
    assert_eq!(extract_k(40), 32);
}

#[test]
fn status_and_verdict_words() {
    assert_eq!(ColorStatus::Held.as_str(), "ok");
    assert_eq!(ColorStatus::Drift.as_str(), "drift");
    assert_eq!(ColorStatus::Missing.as_str(), "missing");
    assert_eq!(Verdict::Pass.as_str(), "pass");
    assert_eq!(Verdict::Warn.as_str(), "warn");
    assert_eq!(Verdict::Fail.as_str(), "fail");
}

#[test]
fn nearest_cluster_wins_and_its_distance_is_reported() {
    let p = palette_of(&[BLUE]);
    let c = clusters_of(&[(RED, 5), ((60, 160, 60), 5)]);
    let r = run(&p, &c, &Limits::default());
    let res = &r.report.colors[0];
    assert_eq!(res.nearest, Some(Rgb8::new(60, 160, 60)));
    assert_eq!(res.delta_e, Some(key(43.49270189450879)));
    assert_eq!(res.reference, Rgb8::new(69, 123, 157));
}

#[test]
fn equally_near_clusters_go_to_the_first() {
    let p = palette_of(&[RED]);
    let c = vec![
        Cluster { color: Rgb8::new(1, 1, 1), count: 1 },
        Cluster { color: Rgb8::new(2, 2, 2), count: 1 },
    ];
    let dist = vec![vec![key(5.0), key(5.0)]];
    let t = Thresholds { warn_delta: key(3.0), fail_delta: key(8.0), strict: false };
    let r = check(&p, &c, &dist, &t);
    assert_eq!(r.colors[0].nearest, Some(Rgb8::new(1, 1, 1)));
    assert_eq!(r.colors[0].status, ColorStatus::Drift);
}

#[test]
fn thresholds_are_inclusive() {
    let p = palette_of(&[RED]);
    let c = clusters_of(&[((9, 9, 9), 1)]);
    let t = Thresholds { warn_delta: key(3.0), fail_delta: key(8.0), strict: false };
    let at_warn = check(&p, &c, &vec![vec![key(3.0)]], &t);
    assert_eq!(at_warn.colors[0].status, ColorStatus::Held);
    let at_fail = check(&p, &c, &vec![vec![key(8.0)]], &t);
    assert_eq!(at_fail.colors[0].status, ColorStatus::Drift);
    assert!(at_fail.foreign.is_empty());
    let beyond = check(&p, &c, &vec![vec![key(8.000001)]], &t);
    assert_eq!(beyond.colors[0].status, ColorStatus::Missing);
    assert_eq!(beyond.foreign.len(), 1);
}

#[test]
fn foreign_colors_come_heaviest_first_then_by_color() {
    let p = palette_of(&[RED]);
    let c = clusters_of(&[((30, 30, 30), 2), ((20, 20, 20), 5), ((10, 10, 10), 2), (RED, 9)]);
    let far = key(50.0);
    let dist = vec![vec![far, key(60.0), far, key(0.0)]];
    let t = Thresholds { warn_delta: key(3.0), fail_delta: key(8.0), strict: false };
    let r = check(&p, &c, &dist, &t);
    let order: Vec<(Rgb8, u64)> = r.foreign.iter().map(|f| (f.color, f.count)).collect();
    assert_eq!(
        order,
        vec![
            (Rgb8::new(20, 20, 20), 5),
            (Rgb8::new(10, 10, 10), 2),
            (Rgb8::new(30, 30, 30), 2),
        ]
    );
    assert_eq!(r.foreign[0].delta_e, key(60.0));
    assert_eq!(r.foreign[0].nearest_reference, Rgb8::new(230, 57, 70));
}

#[test]
fn labels_and_weights_are_carried_into_the_results() {
    let p = Palette {
        name: None,
        source: None,
        colors: vec![PaletteColor {
            color: Rgb8::new(230, 57, 70),
            weight: Some(0.25f64.to_bits()),
            label: Some("hair".to_string()),
        }],
    };
    let c = clusters_of(&[(RED, 1)]);
    let r = run(&p, &c, &Limits::default());
    assert_eq!(r.report.colors[0].label.as_deref(), Some("hair"));
    assert_eq!(r.report.colors[0].weight, Some(0.25f64.to_bits()));
}

#[test]
fn strict_turns_only_a_warning_into_a_failure() {
    let p = palette_of(&[RED, BLUE]);
    let c = clusters_of(&[((222, 66, 82), 5), (BLUE, 5)]);
    let dist = vec![vec![key(3.0942940198418016), key(47.79672890155354)], vec![key(47.79672890155354), key(0.0)]];
    let lax = Thresholds { warn_delta: key(3.0), fail_delta: key(8.0), strict: false };
    let strict = Thresholds { strict: true, ..lax };
    let r = check(&p, &c, &dist, &lax);
    assert_eq!(verdict(&r, &lax, false), Verdict::Warn);
    assert_eq!(verdict(&r, &strict, false), Verdict::Fail);
    let held = check(&p, &clusters_of(&[(RED, 5), (BLUE, 5)]), &vec![vec![key(0.0), key(47.8)], vec![key(47.8), key(0.0)]], &lax);
    assert_eq!(verdict(&held, &lax, false), Verdict::Pass);
    assert_eq!(verdict(&held, &strict, false), Verdict::Pass);
    assert_eq!(verdict(&held, &lax, true), Verdict::Fail);
}
