use std::io::Write;

use camt052::csv::Csv;
use camt052::dispatch::{classify, preflight, process_bytes, process_files, ContentKind};
use camt052::errors::{CamtError, Warning};

const TWO_ENTRIES_XML: &str = r#"<?xml version="1.0" encoding="UTF-8"?>
<Document><BkToCstmrAcctRpt><Rpt>
<Ntry>
  <Amt Ccy="EUR">100.00</Amt>
  <CdtDbtInd>DBIT</CdtDbtInd>
  <BookgDt><Dt>2023-05-01</Dt></BookgDt>
  <ValDt><Dt>2023-05-02</Dt></ValDt>
  <AddtlNtryInf>First</AddtlNtryInf>
</Ntry>
<Ntry>
  <Amt Ccy="EUR">50.00</Amt>
  <CdtDbtInd>CRDT</CdtDbtInd>
  <BookgDt><Dt>2023-05-03</Dt></BookgDt>
  <ValDt><Dt>2023-05-04</Dt></ValDt>
  <AddtlNtryInf>Second</AddtlNtryInf>
</Ntry>
</Rpt></BkToCstmrAcctRpt></Document>"#;

fn make_zip(entries: &[(&str, &[u8])]) -> Vec<u8> {
    let cur = std::io::Cursor::new(Vec::new());
    let mut w = zip::ZipWriter::new(cur);
    let opts = zip::write::SimpleFileOptions::default();
    for (name, data) in entries {
        w.start_file(*name, opts).unwrap();
        w.write_all(data).unwrap();
    }
    w.finish().unwrap().into_inner()
}

#[test]
fn classification_recognizes_archives_and_documents() {
    let zip_bytes = make_zip(&[("a.xml", TWO_ENTRIES_XML.as_bytes())]);
    assert_eq!(classify(&zip_bytes), ContentKind::Archive);
    assert_eq!(classify(&TWO_ENTRIES_XML.as_bytes().to_vec()), ContentKind::Xml);
    assert_eq!(classify(&b"neither of the two".to_vec()), ContentKind::Unrecognized);
}

#[test]
fn zip_of_xml_yields_both_records_in_order() {
    let zip_bytes = make_zip(&[("report.xml", TWO_ENTRIES_XML.as_bytes())]);
    let mut warnings: Vec<Warning> = Vec::new();
    let txs = process_bytes("input.zip", zip_bytes, &mut warnings).unwrap();
    assert_eq!(txs.len(), 2);
    assert_eq!(txs[0].amount.amount.mantissa, -10000);
    assert_eq!(txs[0].amount.amount.scale, 2);
    assert_eq!(txs[0].amount.currency, "EUR");
    assert_eq!(txs[1].amount.amount.mantissa, 5000);
    assert_eq!(txs[1].amount.currency, "EUR");
    // Neither entry names its parties: one creditor and one debtor warning
    // per entry, never a failure.
    assert_eq!(warnings.len(), 4);
}

#[test]
fn nested_zip_yields_the_same_records_as_the_plain_document() {
    let inner = make_zip(&[("report.xml", TWO_ENTRIES_XML.as_bytes())]);
    let outer = make_zip(&[("inner.zip", &inner)]);
    let mut w1: Vec<Warning> = Vec::new();
    let mut w2: Vec<Warning> = Vec::new();
    let nested = process_bytes("outer.zip", outer, &mut w1).unwrap();
    let direct = process_bytes("report.xml", TWO_ENTRIES_XML.as_bytes().to_vec(), &mut w2)
        .unwrap();
    assert_eq!(nested.len(), direct.len());
    for (a, b) in nested.iter().zip(direct.iter()) {
        assert_eq!(a.amount.amount.mantissa, b.amount.amount.mantissa);
        assert_eq!(a.amount.currency, b.amount.currency);
        assert_eq!(a.date, b.date);
        assert_eq!(a.valuta, b.valuta);
        assert_eq!(a.transaction_type, b.transaction_type);
        assert_eq!(a.description, b.description);
    }
}

#[test]
fn unrecognized_bytes_only_warn() {
    let mut warnings: Vec<Warning> = Vec::new();
    let txs = process_bytes("notes.txt", b"just some text".to_vec(), &mut warnings).unwrap();
    assert!(txs.is_empty());
    assert_eq!(warnings.len(), 1);
    assert!(matches!(&warnings[0], Warning::Unrecognized { .. }));
}

#[test]
fn document_without_entries_warns_and_yields_nothing() {
    let empty_doc = r#"<?xml version="1.0"?><Document><BkToCstmrAcctRpt><Rpt></Rpt></BkToCstmrAcctRpt></Document>"#;
    let mut warnings: Vec<Warning> = Vec::new();
    let txs = process_bytes("empty.xml", empty_doc.as_bytes().to_vec(), &mut warnings).unwrap();
    assert!(txs.is_empty());
    assert_eq!(warnings.len(), 1);
    assert!(matches!(&warnings[0], Warning::NoEntries { .. }));
}

#[test]
fn one_bad_entry_fails_the_whole_file() {
    let bad = TWO_ENTRIES_XML.replace("2023-05-03", "bad-date!!");
    let mut warnings: Vec<Warning> = Vec::new();
    let err = process_bytes("bad.xml", bad.into_bytes(), &mut warnings).unwrap_err();
    match err {
        CamtError::Record { path, .. } => assert_eq!(path, "bad.xml"),
        _ => panic!("expected a record error"),
    }
}

#[test]
fn corrupt_archive_fails_with_its_path() {
    // The ZIP magic with nothing valid behind it.
    let mut bytes = b"PK\x03\x04".to_vec();
    bytes.extend_from_slice(&[0u8; 64]);
    let mut warnings: Vec<Warning> = Vec::new();
    if classify(&bytes) == ContentKind::Archive {
        let err = process_bytes("broken.zip", bytes, &mut warnings).unwrap_err();
        match err {
            CamtError::ZipOpen { path, .. } => assert_eq!(path, "broken.zip"),
            CamtError::ZipEntry { path, .. } => assert_eq!(path, "broken.zip"),
            _ => panic!("expected an archive error"),
        }
    }
}

#[test]
fn batch_keeps_input_file_order() {
    let one = make_zip(&[("report.xml", TWO_ENTRIES_XML.as_bytes())]);
    let second = TWO_ENTRIES_XML.replace("First", "Third");
    let files = vec![
        ("a.zip".to_string(), one),
        ("b.xml".to_string(), second.into_bytes()),
    ];
    let mut warnings: Vec<Warning> = Vec::new();
    let txs = process_files(files, &mut warnings).unwrap();
    assert_eq!(txs.len(), 4);
    assert_eq!(txs[0].transaction_type, "First");
    assert_eq!(txs[2].transaction_type, "Third");
}

#[test]
fn preflight_names_only_the_missing_paths() {
    let paths = vec!["exists.xml".to_string(), "missing.xml".to_string()];
    let present = vec![true, false];
    let err = preflight(&paths, &present).unwrap_err();
    match err {
        CamtError::MissingFiles { files } => {
            assert_eq!(files, vec!["missing.xml".to_string()]);
        },
        _ => panic!("expected the pre-flight error"),
    }
    let all_there = vec![true, true];
    assert!(preflight(&paths, &all_there).is_ok());
}

#[test]
fn csv_output_matches_the_fixed_layout() {
    let mut warnings: Vec<Warning> = Vec::new();
    let txs = process_bytes("r.xml", TWO_ENTRIES_XML.as_bytes().to_vec(), &mut warnings)
        .unwrap();
    let rendered = Csv::render(&txs);
    let expected = "Date;Valuta;Amount;Currency;Creditor Name;Creditor IBAN;Debtor Name;Debtor IBAN;Transaction Type;Description\n\
2023-05-01;2023-05-02;-100.00;EUR;;;;;First;\n\
2023-05-03;2023-05-04;50.00;EUR;;;;;Second;\n";
    assert_eq!(rendered, expected);
}

#[test]
fn csv_quotes_fields_that_hold_the_delimiter() {
    let doc = TWO_ENTRIES_XML.replace("First", "semi;colon \"quoted\"");
    let mut warnings: Vec<Warning> = Vec::new();
    let txs = process_bytes("r.xml", doc.into_bytes(), &mut warnings).unwrap();
    let rendered = Csv::render(&txs);
    assert!(rendered.contains("\"semi;colon \"\"quoted\"\"\""));
}
