use dirstat::options::{Cutoff, Mode, Options};

#[test]
fn mode_parses_its_three_names() {
    assert!(matches!(Mode::from_str("apparent-size"), Ok(Mode::ApparentSize)));
    assert!(matches!(Mode::from_str("size"), Ok(Mode::Size)));
    assert!(matches!(Mode::from_str("files"), Ok(Mode::Files)));
}

#[test]
fn mode_rejects_anything_else() {
    assert!(Mode::from_str("").is_err());
    assert!(Mode::from_str("Size").is_err());
    assert!(Mode::from_str("bytes").is_err());
    assert!(Mode::from_str("apparent").is_err());
}

#[test]
fn default_cutoff_is_three_per_thousand() {
    let c = Cutoff::default_fraction();
    assert_eq!(c.num, 3);
    assert_eq!(c.den, 1000);
}

#[test]
fn options_hold_a_run_configuration() {
    let o = Options {
        mode: Mode::Size,
        cutoff: Cutoff::default_fraction(),
        xdev: true,
        paths: vec![".".to_string()],
    };
    assert!(matches!(o.mode, Mode::Size));
    assert!(o.xdev);
    assert_eq!(o.paths, vec![".".to_string()]);
}
