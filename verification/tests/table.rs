use orangu::table::{latest, render, split_label, throughput, Piece, Record};

fn rec(date: &str, label: &str, mode: &str, n: u32, best: f64) -> Record {
    Record {
        date: date.to_string(),
        label: label.to_string(),
        mode: mode.to_string(),
        n,
        best: best.to_bits(),
        mean: (best - 1.0).to_bits(),
        sd_sample: Some(0.6f64.to_bits()),
    }
}

/// The rendered table as text.
fn shown(pieces: &[Piece]) -> String {
    let mut out = String::new();
    for piece in pieces {
        match piece {
            Piece::Text(s) => out.push_str(s),
            Piece::Cell(best, mean, Some(sd)) => out.push_str(&format!(
                "{:.1} ({:.1} ± {:.1})",
                f64::from_bits(*best),
                f64::from_bits(*mean),
                f64::from_bits(*sd)
            )),
            Piece::Cell(best, _, None) => out.push_str(&format!("{:.1}", f64::from_bits(*best))),
            Piece::Ratio(a, b) => {
                out.push_str(&format!("{:.2}", f64::from_bits(*a) / f64::from_bits(*b)))
            }
        }
    }
    out
}

#[test]
fn a_sweep_label_splits_into_row_and_column() {
    assert_eq!(
        split_label("gemma-4-E2B · ENGINE=orangu"),
        ("gemma-4-E2B".to_string(), Some("orangu".to_string()))
    );
    // The last separator is the point; an earlier one belongs to the label.
    assert_eq!(
        split_label("orangu abc123 · card1 · ORANGU_DEVICE=1"),
        ("orangu abc123 · card1".to_string(), Some("1".to_string()))
    );
    assert_eq!(split_label("plain"), ("plain".to_string(), None));
    assert_eq!(
        split_label("a · b"),
        ("a · b".to_string(), None),
        "a suffix without `=` is not a sweep point"
    );
}

/// Two engines over two models: one row per model and context, the engines as columns, the ratio
/// last, and the latest date winning.
#[test]
fn two_swept_values_render_as_columns_with_a_ratio() {
    let records = vec![
        rec("2026-09-01", "m1 · ENGINE=orangu", "tg", 0, 50.0),
        rec("2026-09-02", "m1 · ENGINE=orangu", "tg", 0, 60.0),
        rec("2026-09-02", "m1 · ENGINE=llama.cpp", "tg", 0, 80.0),
        rec("2026-09-02", "m2 · ENGINE=orangu", "tg", 0, 10.0),
        rec("2026-09-02", "m2 · ENGINE=llama.cpp", "tg", 0, 5.0),
        rec("2026-09-02", "m1 · ENGINE=orangu", "pp", 512, 400.0),
        rec("2026-09-02", "m1 · ENGINE=orangu", "io_majflt", 0, 12.0),
    ];
    let md = shown(&render(&records));
    assert!(md.contains("**tg** (tok/s)"), "{md}");
    assert!(
        md.contains("| model | depth | orangu | llama.cpp | orangu / llama.cpp |"),
        "{md}"
    );
    assert!(
        md.contains("| m1 | 0 | 60.0 (59.0 ± 0.6) | 80.0 (79.0 ± 0.6) | 0.75× |"),
        "{md}"
    );
    assert!(
        md.contains("| m2 | 0 | 10.0 (9.0 ± 0.6) | 5.0 (4.0 ± 0.6) | 2.00× |"),
        "{md}"
    );
    // The pp table has only one engine's row; the other cell is empty and the ratio cannot be
    // formed.
    assert!(md.contains("| m1 | 512 | 400.0 (399.0 ± 0.6) | — | — |"), "{md}");
    assert!(!md.contains("io_majflt"), "storage rows are not throughput: {md}");
}

/// Plain labels — an ordinary run's history — still render, as one row each with a single column
/// and no ratio.
#[test]
fn plain_labels_render_one_row_each() {
    let records = vec![
        rec("2026-09-02", "orangu abc", "tg", 0, 60.0),
        rec("2026-09-02", "reference", "tg", 0, 80.0),
    ];
    let md = shown(&render(&records));
    assert!(md.contains("| model | depth | best |"), "{md}");
    assert!(md.contains("| orangu abc | 0 | 60.0 (59.0 ± 0.6) |\n"), "{md}");
    assert!(md.contains("| reference | 0 | 80.0 (79.0 ± 0.6) |\n"), "{md}");
    assert!(!md.contains('×'), "{md}");
}

#[test]
fn the_latest_record_of_a_point_is_the_one_kept() {
    let records = vec![
        rec("2026-09-02", "m", "tg", 0, 2.0),
        rec("2026-09-01", "m", "tg", 0, 1.0),
        rec("2026-09-03", "m", "tg", 0, 3.0),
        rec("2026-09-03", "m", "tg", 512, 4.0),
    ];
    let kept = latest(&records);
    assert_eq!(kept.len(), 2);
    assert_eq!(kept.iter().filter(|r| r.n == 0).count(), 1);
    assert!(kept.iter().any(|r| r.n == 0 && r.best == 3.0f64.to_bits()));
}

#[test]
fn only_throughput_is_tabulated() {
    let records = vec![
        rec("2026-09-02", "m", "tg", 0, 2.0),
        rec("2026-09-02", "m", "pp", 0, 2.0),
        rec("2026-09-02", "m", "io_majflt", 0, 2.0),
    ];
    let modes: Vec<String> = throughput(&records).iter().map(|r| r.mode.clone()).collect();
    assert_eq!(modes, vec!["tg", "pp"]);
}

#[test]
fn at_equal_dates_the_faster_repetition_is_shown() {
    // A cost per token: lower is better.
    let md = shown(&render(&[
        rec("2026-09-02", "m", "cpu", 0, 20.0),
        rec("2026-09-02", "m", "cpu", 0, 10.0),
    ]));
    assert!(md.contains("| m | 0 | 10.0 (9.0 ± 0.6) |"), "{md}");
    assert!(!md.contains("20.0"), "{md}");
    let kept = latest(&[
        rec("2026-09-02", "m", "ttft", 0, 10.0),
        rec("2026-09-02", "m", "ttft", 0, 20.0),
        rec("2026-09-02", "m", "tg", 0, 10.0),
        rec("2026-09-02", "m", "tg", 0, 20.0),
    ]);
    assert_eq!(kept[0].best, 10.0f64.to_bits());
    assert_eq!(kept[1].best, 20.0f64.to_bits());
}

#[test]
fn a_superseded_record_changes_nothing() {
    let mut records = vec![
        rec("2026-09-02", "m", "tg", 0, 2.0),
        rec("2026-09-03", "m · E=a", "pp", 512, 9.0),
    ];
    let page = shown(&render(&records));
    records.push(rec("2026-09-01", "m", "tg", 0, 7.0));
    records.push(rec("2026-09-09", "new", "io_majflt", 0, 7.0));
    assert_eq!(shown(&render(&records)), page);
    records.push(rec("2026-09-09", "m", "tg", 0, 7.0));
    assert_ne!(shown(&render(&records)), page);
}
