use palettefit::color::Rgb8;
use palettefit::palette::{weight_candidates, Palette, PaletteError, WeightReading};
use palettefit::quantize::Cluster;

fn read_weight(token: &str) -> WeightReading {
    match token.parse::<f64>() {
        Ok(w) if (0.0..=1.0).contains(&w) => WeightReading::InRange(w.to_bits()),
        Ok(w) => WeightReading::OutOfRange(w.to_bits()),
        Err(_) => WeightReading::NotNumber,
    }
}

fn parse(text: &str) -> Result<Palette, PaletteError> {
    let readings: Vec<WeightReading> = weight_candidates(text).iter().map(|t| read_weight(t)).collect();
    Palette::parse(text, &readings)
}

fn to_text(p: &Palette) -> String {
    let texts: Vec<String> = p
        .colors
        .iter()
        .map(|c| c.weight.map(|b| format!("{:.4}", f64::from_bits(b))).unwrap_or_default())
        .collect();
    p.to_text(&texts)
}

fn w(x: f64) -> Option<u64> {
    Some(x.to_bits())
}

#[test]
fn parse_full_file() {
    let text = "# palettefit palette v1\n# name: Miko\n# source: ref.png\n\
                e63946 0.412 hair\n457b9d 0.288 warm jacket\n#1d3557 eyes\nf1faee\n";
    let p = parse(text).unwrap();
    assert_eq!(p.name.as_deref(), Some("Miko"));
    assert_eq!(p.source.as_deref(), Some("ref.png"));
    assert_eq!(p.colors.len(), 4);
    assert_eq!(p.colors[0].color.hex(), "e63946");
    assert_eq!(p.colors[0].weight, w(0.412));
    assert_eq!(p.colors[1].label.as_deref(), Some("warm jacket"));
    assert_eq!(p.colors[2].weight, None);
    assert_eq!(p.colors[2].label.as_deref(), Some("eyes"));
    assert_eq!(p.colors[3].label, None);
}

#[test]
fn roundtrip() {
    let text = "# palettefit palette v1\n# name: X\ne63946 0.5000 hair\n457b9d\n";
    let p = parse(text).unwrap();
    let p2 = parse(&to_text(&p)).unwrap();
    assert_eq!(p2.colors.len(), 2);
    assert_eq!(p2.name.as_deref(), Some("X"));
    assert_eq!(p2.colors[0].weight, w(0.5));
}

#[test]
fn rejects_bad_lines() {
    assert!(parse("zzz 0.5\n").is_err());
    assert!(parse("e63946 1.5\n").is_err());
    assert!(parse("# only comments\n").is_err());
}

#[test]
fn errors_name_the_line_and_what_is_wrong() {
    match parse("e63946\n\nzzz 0.5\n") {
        Err(PaletteError::BadHex { line, token }) => {
            assert_eq!(line, 3);
            assert_eq!(token, "zzz");
        }
        other => panic!("unexpected {other:?}"),
    }
    match parse("# name: A\ne63946 1.5 hair\n") {
        Err(PaletteError::WeightOutOfRange { line, bits }) => {
            assert_eq!(line, 2);
            assert_eq!(f64::from_bits(bits), 1.5);
        }
        other => panic!("unexpected {other:?}"),
    }
    assert!(matches!(parse(""), Err(PaletteError::NoColors)));
    assert!(matches!(parse("\n   \n# source: x\n"), Err(PaletteError::NoColors)));
}

#[test]
fn a_word_that_is_no_number_starts_the_label() {
    let p = parse("e63946 warm  red   hair\n").unwrap();
    assert_eq!(p.colors[0].weight, None);
    assert_eq!(p.colors[0].label.as_deref(), Some("warm red hair"));
}

#[test]
fn weight_without_label() {
    let p = parse("  #fff 0  \n").unwrap();
    assert_eq!(p.colors[0].color, Rgb8::new(255, 255, 255));
    assert_eq!(p.colors[0].weight, w(0.0));
    assert_eq!(p.colors[0].label, None);
}

#[test]
fn comments_other_than_metadata_are_ignored_and_later_metadata_wins() {
    let p = parse("# hello\n#name:A\n# name:   B  \n#source:s.png\n123456\n").unwrap();
    assert_eq!(p.name.as_deref(), Some("B"));
    assert_eq!(p.source.as_deref(), Some("s.png"));
    assert_eq!(p.colors.len(), 1);
}

#[test]
fn carriage_returns_are_trimmed() {
    let p = parse("# name: W\r\ne63946 0.25 a b\r\n").unwrap();
    assert_eq!(p.name.as_deref(), Some("W"));
    assert_eq!(p.colors[0].label.as_deref(), Some("a b"));
    assert_eq!(p.colors[0].weight, w(0.25));
}

#[test]
fn weight_candidates_are_the_second_words() {
    let c = weight_candidates("e63946 0.5 hair\n\n#fff\n  a   b c\n");
    assert_eq!(c, vec!["0.5".to_string(), String::new(), String::new(), "b".to_string()]);
}

#[test]
fn to_text_writes_header_metadata_and_one_line_per_color() {
    let p = parse("# source: s.png\n# name: N\ne63946 0.412 hair\n#1d3557 eyes\nf1faee\n").unwrap();
    assert_eq!(
        to_text(&p),
        "# palettefit palette v1\n# name: N\n# source: s.png\ne63946 0.4120 hair\n1d3557 eyes\nf1faee\n"
    );
}

#[test]
fn from_clusters_records_colors_weights_name_and_source() {
    let clusters = vec![
        Cluster { color: Rgb8::new(230, 57, 70), count: 3 },
        Cluster { color: Rgb8::new(69, 123, 157), count: 1 },
    ];
    let p = Palette::from_clusters(&clusters, &vec![0.75f64.to_bits(), 0.25f64.to_bits()], Some("Miko"), Some("ref.png"));
    assert_eq!(p.name.as_deref(), Some("Miko"));
    assert_eq!(p.source.as_deref(), Some("ref.png"));
    assert_eq!(p.colors.len(), 2);
    assert_eq!(p.colors[1].color, Rgb8::new(69, 123, 157));
    assert_eq!(p.colors[1].weight, w(0.25));
    assert_eq!(p.colors[0].label, None);
    assert_eq!(
        to_text(&p),
        "# palettefit palette v1\n# name: Miko\n# source: ref.png\ne63946 0.7500\n457b9d 0.2500\n"
    );
    let bare = Palette::from_clusters(&clusters, &vec![], None, None);
    assert_eq!(bare.name, None);
    assert_eq!(bare.colors[0].weight, None);
}

#[test]
fn written_palettes_read_back_as_themselves() {
    let p = Palette {
        name: Some("Miko Ref".to_string()),
        source: Some("sheet 2.png".to_string()),
        colors: vec![
            palettefit::palette::PaletteColor { color: Rgb8::new(230, 57, 70), weight: w(0.25), label: Some("warm red hair".to_string()) },
            palettefit::palette::PaletteColor { color: Rgb8::new(0, 0, 0), weight: None, label: Some("eyes".to_string()) },
            palettefit::palette::PaletteColor { color: Rgb8::new(1, 2, 3), weight: w(1.0), label: None },
            palettefit::palette::PaletteColor { color: Rgb8::new(4, 5, 6), weight: None, label: None },
        ],
    };
    let q = parse(&to_text(&p)).unwrap();
    assert_eq!(q.name, p.name);
    assert_eq!(q.source, p.source);
    assert_eq!(q.colors.len(), p.colors.len());
    for (a, b) in q.colors.iter().zip(p.colors.iter()) {
        assert_eq!(a.color, b.color);
        assert_eq!(a.weight, b.weight);
        assert_eq!(a.label, b.label);
    }
}

#[test]
fn a_numeric_first_label_word_without_weight_reads_as_a_weight() {
    // The one shape the file cannot carry: no weight and a label that
    // starts with a number.
    let p = Palette {
        name: None,
        source: None,
        colors: vec![palettefit::palette::PaletteColor { color: Rgb8::new(1, 2, 3), weight: None, label: Some("0.5 gray".to_string()) }],
    };
    let q = parse(&to_text(&p)).unwrap();
    assert_eq!(q.colors[0].weight, w(0.5));
    assert_eq!(q.colors[0].label.as_deref(), Some("gray"));
}
