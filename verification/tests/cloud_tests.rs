use despoticir::{Cloud, CloudError, Scalar};

fn lines(v: &[&str]) -> Vec<String> {
    let mut out: Vec<String> = Vec::new();
    for s in v.iter() {
        out.push(s.to_string());
    }
    out
}

fn ingested(v: &[&str]) -> Cloud {
    let mut c = Cloud::new(false);
    c.read(&lines(v)).expect("descriptor should ingest");
    c
}

fn scalar(neg: bool, mag: u128, exp: i64) -> Scalar {
    Scalar::new(neg, mag, exp).expect("scalar in range")
}

#[test]
fn field_assignment_round_trip() {
    // NH = 100.0 stores exactly 100, with no conversion applied
    let c = ingested(&["NH = 100.0", "XHI = 1.0"]);
    assert_eq!(c.nH, scalar(false, 100, 0));
}

#[test]
fn all_field_keywords_assign() {
    let c = ingested(&[
        "NH = 100.0",
        "COLDEN = 1.0e3",
        "SIGMANT = 2.0e4",
        "DVDR = 5.0e-3",
        "TG = 50.0",
        "TD = 20.0",
        "ALPHAGD = 3.2e-34",
        "SIGMAD10 = 0.2",
        "SIGMADPE = 1e-21",
        "SIGMADISRF = 3e-22",
        "ZDUST = 1.0",
        "BETADUST = 2.0",
        "XHI = 1.0",
        "XHE = 0.1",
        "XE = 1e-4",
        "TCMB = 2.73",
        "TRADDUST = 0.0",
        "RADDUTDILUTION = 0.5",
        "IONRATE = 2e-17",
        "CHI = 1.0",
    ]);
    assert_eq!(c.nH, scalar(false, 100, 0));
    assert_eq!(c.colDen, scalar(false, 1, 3));
    assert_eq!(c.sigmaNT, scalar(false, 2, 4));
    assert_eq!(c.dVdr, scalar(false, 5, -3));
    assert_eq!(c.Tg, scalar(false, 50, 0));
    assert_eq!(c.Td, scalar(false, 20, 0));
    assert_eq!(c.dust.alphaGD, scalar(false, 32, -35));
    assert_eq!(c.dust.sigma10, scalar(false, 2, -1));
    assert_eq!(c.dust.sigmaPE, scalar(false, 1, -21));
    assert_eq!(c.dust.sigmaISRF, scalar(false, 3, -22));
    assert_eq!(c.dust.Zd, scalar(false, 1, 0));
    assert_eq!(c.dust.beta, scalar(false, 2, 0));
    assert_eq!(c.comp.xHI, scalar(false, 1, 0));
    assert_eq!(c.comp.xHe, scalar(false, 1, -1));
    assert_eq!(c.comp.xe, scalar(false, 1, -4));
    assert_eq!(c.rad.TCMB, scalar(false, 273, -2));
    assert_eq!(c.rad.TradDust, scalar(false, 0, 0));
    assert_eq!(c.rad.fdDilute, scalar(false, 5, -1));
    assert_eq!(c.rad.ionRate, scalar(false, 2, -17));
    assert_eq!(c.rad.chi, scalar(false, 1, 0));
}

#[test]
fn valid_descriptor_populates_derived() {
    // xHI + xH+ + 2*(xpH2 + xoH2) = 0.5 + 0 + 2*(0.2 + 0.05) = 1
    let c = ingested(&["XHI = 0.5", "XPH2 = 0.2", "XOH2 = 0.05"]);
    assert!(c.comp.derived_ready);
    // no gas temperature: heat capacity not computed
    assert!(!c.comp.cv_ready);
}

#[test]
fn heat_capacity_iff_gas_temperature() {
    let c = ingested(&["XHI = 1.0", "TG = 50.0"]);
    assert!(c.comp.derived_ready);
    assert!(c.comp.cv_ready);
    let c2 = ingested(&["XHI = 1.0", "TG = 0.0"]);
    assert!(!c2.comp.cv_ready);
}

#[test]
fn exact_decimal_hydrogen_sum() {
    // 0.3 + 2*(0.35 + 0.0) = 1 exactly, as decimals
    let c = ingested(&["XHI = 0.3", "XPH2 = 0.35"]);
    assert!(c.comp.derived_ready);
}

#[test]
fn invariant_violation_rejected() {
    let mut c = Cloud::new(false);
    let r = c.read(&lines(&["XHI = 0.4", "XPH2 = 0.2", "XOH2 = 0.05"]));
    assert!(matches!(r, Err(CloudError::InvariantViolation)));
}

#[test]
fn blank_and_comment_lines_are_noops() {
    let with = ingested(&[
        "",
        "# a cloud",
        "NH = 100.0",
        "",
        "  # indented comment",
        "XHI = 1.0",
        "",
    ]);
    let without = ingested(&["NH = 100.0", "XHI = 1.0"]);
    assert_eq!(with.nH, without.nH);
    assert_eq!(with.comp.xHI, without.comp.xHI);
    assert_eq!(with.comp.derived_ready, without.comp.derived_ready);
}

#[test]
fn inline_comment_is_stripped() {
    let c = ingested(&["NH = 100.0 # per cubic centimetre", "XHI = 1.0"]);
    assert_eq!(c.nH, scalar(false, 100, 0));
}

#[test]
fn keywords_match_case_insensitively() {
    let c = ingested(&["  nH  = 100.0", "xhi = 1.0"]);
    assert_eq!(c.nH, scalar(false, 100, 0));
    assert_eq!(c.comp.xHI, scalar(false, 1, 0));
}

#[test]
fn emitter_with_defaults() {
    let c = ingested(&["XHI = 1.0", "EMITTER = CO 1.0e-4"]);
    let e = c.get_emitter("CO").expect("CO registered");
    assert_eq!(e.name, "CO");
    assert_eq!(e.abundance, scalar(false, 1, -4));
    assert!(!e.energySkip);
    assert!(e.extrap);
    assert!(e.emitterFile.is_none());
    assert!(e.emitterURL.is_none());
}

#[test]
fn emitter_with_options() {
    let c = ingested(&["XHI = 1.0", "EMITTER = CO 1.0e-4 ENERGYSKIP NOEXTRAP FILE:co.dat"]);
    let e = c.get_emitter("CO").expect("CO registered");
    assert!(e.energySkip);
    assert!(!e.extrap);
    assert_eq!(e.emitterFile.as_ref().expect("file set"), "co.dat");
    assert!(e.emitterURL.is_none());
}

#[test]
fn emitter_url_and_extrapolate() {
    let c = ingested(&["XHI = 1.0", "EMITTER = co+ 2e-9 extrapolate URL:http://x/co.dat"]);
    let e = c.get_emitter("co+").expect("co+ registered");
    assert!(e.extrap);
    assert!(!e.energySkip);
    assert_eq!(e.emitterURL.as_ref().expect("url set"), "http://x/co.dat");
}

#[test]
fn emitter_redeclaration_last_write_wins() {
    let c = ingested(&[
        "XHI = 1.0",
        "EMITTER = CO 1.0e-4 ENERGYSKIP",
        "EMITTER = CO 3.0e-5",
    ]);
    let e = c.get_emitter("CO").expect("CO registered");
    assert_eq!(e.abundance, scalar(false, 3, -5));
    assert!(!e.energySkip);
}

#[test]
fn xh2_defaults_ortho_para_ratio() {
    let c = ingested(&["XHI = 1.0", "XH2 = 0.5"]);
    assert_eq!(c.comp.xH2, scalar(false, 5, -1));
    assert_eq!(c.comp.H2OPR, Some(scalar(false, 25, -2)));
}

#[test]
fn explicit_h2opr_is_kept() {
    let c = ingested(&["XHI = 1.0", "H2OPR = 3.0", "XH2 = 0.5"]);
    assert_eq!(c.comp.H2OPR, Some(scalar(false, 3, 0)));
}

#[test]
fn emitter_wrong_token_count_fails() {
    let mut c = Cloud::new(false);
    let r = c.read(&lines(&["EMITTER = CO"]));
    assert!(matches!(r, Err(CloudError::MalformedEmitterDirective { .. })));
    let mut c2 = Cloud::new(false);
    let r2 = c2.read(&lines(&["EMITTER = CO 1e-4 A B C D E"]));
    assert!(matches!(r2, Err(CloudError::MalformedEmitterDirective { .. })));
}

#[test]
fn emitter_unrecognized_option_fails() {
    let mut c = Cloud::new(false);
    let r = c.read(&lines(&["EMITTER = CO 1e-4 SPIN"]));
    match r {
        Err(CloudError::UnrecognizedEmitterOption { token }) => assert_eq!(token, "SPIN"),
        _ => panic!("expected an unrecognized emitter option"),
    }
}

#[test]
fn unrecognized_keyword_is_named() {
    let mut c = Cloud::new(false);
    let r = c.read(&lines(&["FOO = 3"]));
    match r {
        Err(CloudError::UnrecognizedKeyword { keyword }) => assert_eq!(keyword, "FOO"),
        _ => panic!("expected an unrecognized keyword"),
    }
}

#[test]
fn line_without_equals_fails() {
    let mut c = Cloud::new(false);
    let r = c.read(&lines(&["NH 100.0"]));
    assert!(matches!(r, Err(CloudError::MalformedLine { .. })));
}

#[test]
fn empty_value_fails() {
    let mut c = Cloud::new(false);
    let r = c.read(&lines(&["NH ="]));
    assert!(matches!(r, Err(CloudError::MalformedLine { .. })));
}

#[test]
fn unreadable_number_fails() {
    let mut c = Cloud::new(false);
    let r = c.read(&lines(&["NH = fast"]));
    assert!(matches!(r, Err(CloudError::MalformedLine { .. })));
}

#[test]
fn xhplus_alias_writes_electron_fraction() {
    let c = ingested(&["XHI = 1.0", "XH+ = 1e-4"]);
    assert_eq!(c.comp.xe, scalar(false, 1, -4));
    // the ionized-hydrogen field itself is untouched by any keyword
    assert_eq!(c.comp.xHplus, scalar(false, 0, 0));
}

#[test]
fn scientific_notation_parses_exactly() {
    let c = ingested(&["NH = 1e2", "XHI = 1.0"]);
    let d = ingested(&["NH = 100.0", "XHI = 1.0"]);
    assert_eq!(c.nH, d.nH);
    let e = ingested(&["NH = -2.5e-3", "XHI = 1.0"]);
    assert_eq!(e.nH, scalar(true, 25, -4));
}

#[test]
fn empty_descriptor_fails_invariant() {
    // with nothing set, the hydrogen abundances sum to zero, not one
    let mut c = Cloud::new(false);
    let r = c.read(&lines(&[]));
    assert!(matches!(r, Err(CloudError::InvariantViolation)));
}

#[test]
fn emitter_six_tokens_is_accepted() {
    let c = ingested(&[
        "XHI = 1.0",
        "EMITTER = CO 1e-4 ENERGYSKIP NOEXTRAP FILE:co.dat URL:http://x",
    ]);
    let e = c.get_emitter("CO").expect("CO registered");
    assert!(e.energySkip);
    assert!(!e.extrap);
    assert_eq!(e.emitterFile.as_ref().expect("file set"), "co.dat");
    assert_eq!(e.emitterURL.as_ref().expect("url set"), "http://x");
}

#[test]
fn empty_cloud_has_zeroed_fields() {
    let c = Cloud::new(true);
    assert!(c.noWarn);
    assert_eq!(c.nH, scalar(false, 0, 0));
    assert!(c.comp.H2OPR.is_none());
    assert!(!c.comp.derived_ready);
    assert!(c.chemnetwork.is_none());
    assert!(c.get_emitter("CO").is_none());
}
