use palettefit::check::{CheckReport, ColorResult, ColorStatus, ForeignColor, Verdict};
use palettefit::color::Rgb8;
use palettefit::diff::{diff_document, diff_table, nearest_matches, DiffNumbers};
use palettefit::json::{check_document, extract_document, image_document, ImageNumbers, ThresholdTexts};
use palettefit::palette::{Palette, PaletteColor};
use palettefit::quantize::Cluster;
use palettefit::report::{background_text, CheckNumbers, ColorChoice, Style};

fn plain() -> Style {
    Style::new(ColorChoice::Never, false, false)
}

fn red() -> Rgb8 {
    Rgb8::new(230, 57, 70)
}

fn blue() -> Rgb8 {
    Rgb8::new(69, 123, 157)
}

fn sample_report() -> CheckReport {
    CheckReport {
        colors: vec![
            ColorResult {
                reference: blue(),
                label: Some("jacket".to_string()),
                weight: None,
                nearest: Some(Rgb8::new(0x24, 0x40, 0x6b)),
                delta_e: Some(1),
                status: ColorStatus::Missing,
            },
            ColorResult {
                reference: red(),
                label: None,
                weight: None,
                nearest: None,
                delta_e: None,
                status: ColorStatus::Held,
            },
        ],
        foreign: vec![ForeignColor {
            color: Rgb8::new(0x3c, 0xa0, 0x6c),
            count: 3,
            nearest_reference: Rgb8::new(0xf1, 0xfa, 0xee),
            delta_e: 2,
        }],
    }
}

#[test]
fn palette_table_lists_swatch_hex_and_percent() {
    let cs = vec![Cluster { color: red(), count: 3 }, Cluster { color: blue(), count: 1 }];
    let t = plain().palette_table(&cs, &vec![" 75.0".to_string(), " 25.0".to_string()]);
    assert_eq!(t, "  #e63946   75.0%\n  #457b9d   25.0%\n");
    let colored = Style::new(ColorChoice::Auto, true, false).palette_table(&cs[..1].to_vec(), &vec![" 75.0".to_string()]);
    assert_eq!(colored, "  \x1b[48;2;230;57;70m  \x1b[0m #e63946   75.0%\n");
}

#[test]
fn check_table_shows_each_reference_and_the_foreign_paint() {
    let nums = CheckNumbers {
        deltas: vec!["21.29".to_string(), String::new()],
        foreign_share: "48.2".to_string(),
        foreign_percents: vec![" 48.2".to_string()],
        foreign_deltas: vec!["32.93".to_string()],
    };
    let t = plain().check_table("p07.png", &sample_report(), Verdict::Fail, &nums);
    assert_eq!(
        t,
        "p07.png: FAIL\n\
         \x20 missing #457b9d  nearest #24406b  dE 21.29  jacket\n\
         \x20 ok      #e63946  no foreground pixels  \n\
         \x20 foreign paint: 48.2% of foreground\n\
         \x20   #3ca06c   48.2%  (nearest reference #f1faee at dE 32.93)\n"
    );
}

#[test]
fn check_table_lists_at_most_five_foreign_colors() {
    let mut report = sample_report();
    report.foreign = (0..7u8)
        .map(|i| ForeignColor { color: Rgb8::new(i, i, i), count: 1, nearest_reference: red(), delta_e: 9 })
        .collect();
    let nums = CheckNumbers {
        deltas: vec![],
        foreign_share: "70.0".to_string(),
        foreign_percents: vec![],
        foreign_deltas: vec![],
    };
    let t = plain().check_table("x", &report, Verdict::Fail, &nums);
    assert_eq!(t.matches("(nearest reference").count(), 5);
    assert!(t.contains("#040404") && !t.contains("#050505"));
}

#[test]
fn background_texts() {
    assert_eq!(background_text(Some(Rgb8::new(255, 255, 255)), "75.0"), "#ffffff excluded (75.0% of samples dropped)");
    assert_eq!(background_text(None, "0.0"), "none excluded");
}

#[test]
fn extract_document_layout() {
    let cs = vec![Cluster { color: red(), count: 3 }, Cluster { color: blue(), count: 1 }];
    let d = extract_document(
        "0.1.0",
        "dir/ref \"a\".png",
        640,
        48,
        Some(Rgb8::new(255, 255, 255)),
        "0.7500",
        &cs,
        &vec!["0.7500".to_string(), "0.2500".to_string()],
    );
    assert_eq!(
        d,
        "{\"tool\": \"palettefit\", \"version\": \"0.1.0\", \"command\": \"extract\", \
         \"image\": \"dir/ref \\\"a\\\".png\", \"width\": 640, \"height\": 48, \"background\": \"ffffff\", \
         \"excluded_share\": 0.7500, \"colors\": [{\"hex\": \"e63946\", \"weight\": 0.7500}, \
         {\"hex\": \"457b9d\", \"weight\": 0.2500}]}"
    );
    let empty = extract_document("v", "i", 0, 7, None, "0.0000", &vec![], &vec![]);
    assert!(empty.contains("\"width\": 0, \"height\": 7, \"background\": null"));
    assert!(empty.ends_with("\"colors\": []}"));
}

#[test]
fn image_document_layout() {
    let nums = ImageNumbers {
        deltas: vec!["21.2900".to_string(), String::new()],
        foreign_weights: vec!["0.4820".to_string()],
        foreign_deltas: vec!["32.9300".to_string()],
        foreign_share: "0.4820".to_string(),
    };
    let d = image_document("p07.png", Verdict::Fail, None, &sample_report(), &nums);
    assert_eq!(
        d,
        "{\"image\": \"p07.png\", \"verdict\": \"fail\", \"background\": null, \"colors\": [\
         {\"reference\": \"457b9d\", \"label\": \"jacket\", \"nearest\": \"24406b\", \"delta_e\": 21.2900, \"status\": \"missing\"}, \
         {\"reference\": \"e63946\", \"label\": null, \"nearest\": null, \"delta_e\": null, \"status\": \"ok\"}], \
         \"foreign\": [{\"hex\": \"3ca06c\", \"weight\": 0.4820, \"nearest_reference\": \"f1faee\", \"delta_e\": 32.9300}], \
         \"foreign_share\": 0.4820}"
    );
}

#[test]
fn check_document_layout() {
    let palette = Palette {
        name: Some("Miko".to_string()),
        source: None,
        colors: vec![
            PaletteColor { color: red(), weight: Some(0.5f64.to_bits()), label: Some("hair".to_string()) },
            PaletteColor { color: blue(), weight: None, label: None },
        ],
    };
    let t = ThresholdTexts {
        warn_delta: "3".to_string(),
        fail_delta: "8".to_string(),
        max_foreign: None,
        strict: true,
    };
    let d = check_document(
        "0.1.0",
        &palette,
        &vec!["0.5000".to_string(), "null".to_string()],
        &t,
        &vec!["{\"image\": 1}".to_string(), "{\"image\": 2}".to_string()],
        false,
    );
    assert_eq!(
        d,
        "{\"tool\": \"palettefit\", \"version\": \"0.1.0\", \"command\": \"check\", \
         \"palette\": {\"name\": \"Miko\", \"source\": null, \"colors\": [\
         {\"hex\": \"e63946\", \"weight\": 0.5000, \"label\": \"hair\"}, \
         {\"hex\": \"457b9d\", \"weight\": null, \"label\": null}]}, \
         \"thresholds\": {\"warn_delta\": 3, \"fail_delta\": 8, \"max_foreign\": null, \"strict\": true}, \
         \"images\": [{\"image\": 1}, {\"image\": 2}], \"verdict\": \"pass\"}"
    );
    let gated = ThresholdTexts { max_foreign: Some("0.2500".to_string()), strict: false, ..t };
    let d = check_document("v", &palette, &vec![], &gated, &vec![], true);
    assert!(d.contains("\"max_foreign\": 0.2500, \"strict\": false}"));
    assert!(d.ends_with("\"images\": [], \"verdict\": \"fail\"}"));
}

#[test]
fn diff_matches_the_nearest_cluster_first_on_ties() {
    let dist = vec![vec![5, 3, 3], vec![1, 2, 0], vec![4, 4, 4]];
    assert_eq!(nearest_matches(&dist, 3), vec![1, 2, 0]);
    assert!(nearest_matches(&vec![], 1).is_empty());
}

#[test]
fn diff_document_and_table_layout() {
    let a = vec![Cluster { color: red(), count: 1 }];
    let b = vec![Cluster { color: blue(), count: 1 }, Cluster { color: Rgb8::new(230, 57, 71), count: 1 }];
    let m = vec![1usize];
    let nums = DiffNumbers {
        weights: vec!["1.0000".to_string()],
        deltas: vec!["0.1000".to_string()],
        mean: "0.1000".to_string(),
        max: "0.1000".to_string(),
    };
    assert_eq!(
        diff_document("0.1.0", "a.png", "b.png", &a, &b, &m, &nums),
        "{\"tool\": \"palettefit\", \"version\": \"0.1.0\", \"command\": \"diff\", \"a\": \"a.png\", \"b\": \"b.png\", \
         \"colors\": [{\"hex\": \"e63946\", \"weight\": 1.0000, \"nearest\": \"e63947\", \"delta_e\": 0.1000}], \
         \"weighted_mean_delta_e\": 0.1000, \"max_delta_e\": 0.1000}"
    );
    let nums = DiffNumbers {
        weights: vec!["100.0".to_string()],
        deltas: vec![" 0.10".to_string()],
        mean: "0.10".to_string(),
        max: "0.10".to_string(),
    };
    assert_eq!(
        diff_table(&plain(), "a.png", "b.png", &a, &b, &m, &nums),
        "a.png vs b.png\n  #e63946  100.0%  ->  #e63947  dE  0.10\nweighted mean dE 0.10, max dE 0.10\n"
    );
}
