use csv_columns::csv_core::Dialect as CoreDialect;
use csv_columns::rainbow_csv_core::Dialect;

#[test]
fn delimiters_and_quoting() {
    assert_eq!(Dialect::Csv.delimiter(), ',');
    assert_eq!(Dialect::Tsv.delimiter(), '\t');
    assert_eq!(Dialect::Ssv.delimiter(), ';');
    assert_eq!(Dialect::Psv.delimiter(), '|');
    assert!(Dialect::Csv.quoted() && Dialect::Ssv.quoted());
    assert!(!Dialect::Tsv.quoted() && !Dialect::Psv.quoted());
    assert_eq!(CoreDialect::Psv.delimiter(), '|');
    assert!(CoreDialect::Ssv.quoted() && !CoreDialect::Tsv.quoted());
}

#[test]
fn dialects_from_language_ids() {
    assert_eq!(Dialect::from_language_id("csv"), Some(Dialect::Csv));
    assert_eq!(Dialect::from_language_id("tsv"), Some(Dialect::Tsv));
    assert_eq!(Dialect::from_language_id("csv-semicolon"), Some(Dialect::Ssv));
    assert_eq!(Dialect::from_language_id("csv-pipe"), Some(Dialect::Psv));
    assert_eq!(Dialect::from_language_id("CSV"), None);
}

#[test]
fn dialects_from_language_names() {
    assert_eq!(Dialect::from_language_name("Rainbow CSV Align (,)"), Some(Dialect::Csv));
    assert_eq!(Dialect::from_language_name("Rainbow TSV Align (\t)"), Some(Dialect::Tsv));
    assert_eq!(Dialect::from_language_name("Rainbow CSV Align (;)"), Some(Dialect::Ssv));
    assert_eq!(Dialect::from_language_name("Rainbow CSV Align (|)"), Some(Dialect::Psv));
    assert_eq!(Dialect::from_language_name("Rainbow CSV (,)"), None);
    assert_eq!(CoreDialect::from_language_name("Rainbow CSV (,)"), Some(CoreDialect::Csv));
    assert_eq!(CoreDialect::from_language_name("Rainbow TSV"), Some(CoreDialect::Tsv));
    assert_eq!(CoreDialect::from_language_name("Rainbow CSV (;)"), Some(CoreDialect::Ssv));
    assert_eq!(CoreDialect::from_language_name("Rainbow CSV (|)"), Some(CoreDialect::Psv));
    assert_eq!(CoreDialect::from_language_name("Rainbow TS"), None);
}

#[test]
fn dialects_from_extensions() {
    assert_eq!(Dialect::from_extension("CSV"), Some(Dialect::Csv));
    assert_eq!(Dialect::from_extension("Tab"), Some(Dialect::Tsv));
    assert_eq!(Dialect::from_extension("tsv"), Some(Dialect::Tsv));
    assert_eq!(Dialect::from_extension("psv"), None);
    assert_eq!(Dialect::from_extension(""), None);
    assert_eq!(CoreDialect::from_extension("cSv"), Some(CoreDialect::Csv));
    assert_eq!(CoreDialect::from_extension("TSV"), Some(CoreDialect::Tsv));
    assert_eq!(CoreDialect::from_extension("ssv"), None);
}

#[test]
fn extensions_ignore_ascii_case() {
    for ext in ["csv", "CSV", "Csv", "tsv", "TsV", "tab", "TAB", "psv", "", "Ünï"] {
        let lower = ext.to_ascii_lowercase();
        assert_eq!(Dialect::from_extension(ext), Dialect::from_extension(&lower));
        assert_eq!(CoreDialect::from_extension(ext), CoreDialect::from_extension(&lower));
    }
}
