use tack::ui::{decimal_string, glyph, plain_line, render_frame, suffix, PinStatus};

fn updated() -> PinStatus {
    PinStatus::Updated { old: "abc1234".into(), new: "def5678".into() }
}

#[test]
fn glyphs_and_colours() {
    assert_eq!(glyph(&PinStatus::Pending, 0), "\x1b[2m·\x1b[0m");
    assert_eq!(glyph(&PinStatus::Fetching, 0), "\x1b[34m/\x1b[0m");
    assert_eq!(glyph(&PinStatus::Fetching, 1), "\x1b[34m-\x1b[0m");
    assert_eq!(glyph(&PinStatus::Fetching, 2), "\x1b[34m\\\x1b[0m");
    assert_eq!(glyph(&PinStatus::Fetching, 7), "\x1b[34m|\x1b[0m");
    assert_eq!(glyph(&PinStatus::NoChange, 3), "\x1b[33m-\x1b[0m");
    assert_eq!(glyph(&updated(), 3), "\x1b[32m✓\x1b[0m");
    assert_eq!(glyph(&PinStatus::Drift { rev: "r".into(), accepted: true }, 0), "\x1b[33m~\x1b[0m");
    assert_eq!(glyph(&PinStatus::Drift { rev: "r".into(), accepted: false }, 0), "\x1b[31m!\x1b[0m");
    assert_eq!(glyph(&PinStatus::Failed("x".into()), 0), "\x1b[31m✗\x1b[0m");
}

#[test]
fn suffixes() {
    assert_eq!(suffix(&updated()), "  abc1234 -> def5678");
    assert_eq!(suffix(&PinStatus::Pending), "");
    assert_eq!(suffix(&PinStatus::NoChange), "");
    assert_eq!(
        suffix(&PinStatus::Drift { rev: "r1".into(), accepted: false }),
        "  DRIFT: rev r1 unchanged but content differs (lock kept)"
    );
    assert_eq!(
        suffix(&PinStatus::Drift { rev: "r1".into(), accepted: true }),
        "  DRIFT: rev r1 content changed, relocked (--accept)"
    );
    assert_eq!(suffix(&PinStatus::Failed("boom".into())), "  boom");
}

#[test]
fn plain_lines() {
    assert_eq!(plain_line("np", &updated()).as_deref(), Some("np: abc1234 -> def5678"));
    assert_eq!(plain_line("np", &PinStatus::NoChange).as_deref(), Some("np: unchanged"));
    assert_eq!(
        plain_line("np", &PinStatus::Drift { rev: "r".into(), accepted: false }).as_deref(),
        Some("np: DRIFT: rev r unchanged but content differs (lock kept)")
    );
    assert_eq!(
        plain_line("np", &PinStatus::Drift { rev: "r".into(), accepted: true }).as_deref(),
        Some("np: DRIFT: rev r content changed, relocked (--accept)")
    );
    assert_eq!(plain_line("np", &PinStatus::Failed("e".into())).as_deref(), Some("np: FAILED: e"));
    assert!(plain_line("np", &PinStatus::Pending).is_none());
    assert!(plain_line("np", &PinStatus::Fetching).is_none());
}

#[test]
fn decimals() {
    assert_eq!(decimal_string(0), "0");
    assert_eq!(decimal_string(7), "7");
    assert_eq!(decimal_string(10), "10");
    assert_eq!(decimal_string(1234567), "1234567");
    assert_eq!(decimal_string(usize::MAX), usize::MAX.to_string());
}

#[test]
fn frames() {
    let names = vec!["a".to_string(), "bb".to_string()];
    let states = vec![PinStatus::NoChange, PinStatus::Fetching];
    assert_eq!(
        render_frame(&names, &states, 1, false),
        "\x1b[2K[\x1b[33m-\x1b[0m] a\n\x1b[2K[\x1b[34m-\x1b[0m] bb\n"
    );
    assert_eq!(
        render_frame(&names, &states, 0, true),
        "\x1b[2A\x1b[2K[\x1b[33m-\x1b[0m] a\n\x1b[2K[\x1b[34m/\x1b[0m] bb\n"
    );
    assert_eq!(render_frame(&[], &[], 0, true), "\x1b[0A");
}
