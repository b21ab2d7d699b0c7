use camt052::errors::{FieldError, Warning};
use camt052::transaction::Transaction;
use camt052::xml_tree::{parse_xml, XmlTree};

fn entry_doc(entry_body: &str) -> String {
    let mut s = String::from(
        "<?xml version=\"1.0\" encoding=\"UTF-8\"?>\n<Document><BkToCstmrAcctRpt><Rpt><Ntry>",
    );
    s.push_str(entry_body);
    s.push_str("</Ntry></Rpt></BkToCstmrAcctRpt></Document>");
    s
}

fn entry_tree(entry_body: &str) -> (XmlTree, usize) {
    let doc = entry_doc(entry_body);
    let tree = parse_xml(&doc.into_bytes()).unwrap();
    let hits = tree.filter(0, "Document/BkToCstmrAcctRpt/Rpt/Ntry");
    assert_eq!(hits.len(), 1);
    (tree, hits[0])
}

const FULL_ENTRY: &str = r#"
  <Amt Ccy="EUR">100.00</Amt>
  <CdtDbtInd>DBIT</CdtDbtInd>
  <BookgDt><Dt>2023-05-01</Dt></BookgDt>
  <ValDt><Dt>2023-05-02</Dt></ValDt>
  <AddtlNtryInf> Payment </AddtlNtryInf>
  <NtryDtls><TxDtls>
    <RltdPties>
      <Cdtr><Nm>Alice GmbH</Nm></Cdtr>
      <CdtrAcct><Id><IBAN>DE89370400440532013000</IBAN></Id></CdtrAcct>
      <Dbtr><Pty><Nm> Bob </Nm></Pty></Dbtr>
      <DbtrAcct><Id><IBAN>not-an-iban</IBAN></Id></DbtrAcct>
    </RltdPties>
    <RmtInf><Ustrd>Part one</Ustrd><Ustrd> part two </Ustrd></RmtInf>
  </TxDtls></NtryDtls>
"#;

#[test]
fn decodes_a_full_entry() {
    let (tree, entry) = entry_tree(FULL_ENTRY);
    let mut warnings: Vec<Warning> = Vec::new();
    let tx = Transaction::build(&tree, entry, &mut warnings).unwrap();
    assert_eq!(tx.date.year, 2023);
    assert_eq!(tx.date.month, 5);
    assert_eq!(tx.date.day, 1);
    assert_eq!(tx.valuta.day, 2);
    // DBIT: the stated magnitude, negated.
    assert_eq!(tx.amount.amount.mantissa, -10000);
    assert_eq!(tx.amount.amount.scale, 2);
    assert_eq!(tx.amount.currency, "EUR");
    assert_eq!(tx.creditor.name, "Alice GmbH");
    assert_eq!(tx.creditor.iban.as_deref(), Some("DE89370400440532013000"));
    // The debtor name comes from the fallback path and is trimmed.
    assert_eq!(tx.debtor.name, "Bob");
    // A malformed identifier is swallowed, never fatal.
    assert!(tx.debtor.iban.is_none());
    assert_eq!(tx.transaction_type, "Payment");
    assert_eq!(tx.description, "Part one; part two");
    assert!(warnings.is_empty());
}

#[test]
fn credit_and_absent_indicator_keep_the_sign() {
    let body = FULL_ENTRY.replace("DBIT", "CRDT");
    let (tree, entry) = entry_tree(&body);
    let mut warnings = Vec::new();
    let tx = Transaction::build(&tree, entry, &mut warnings).unwrap();
    assert_eq!(tx.amount.amount.mantissa, 10000);

    let body = FULL_ENTRY.replace("<CdtDbtInd>DBIT</CdtDbtInd>", "");
    let (tree, entry) = entry_tree(&body);
    let tx = Transaction::build(&tree, entry, &mut warnings).unwrap();
    assert_eq!(tx.amount.amount.mantissa, 10000);
}

#[test]
fn missing_booking_date_is_a_structural_error() {
    let body = FULL_ENTRY.replace("<BookgDt><Dt>2023-05-01</Dt></BookgDt>", "");
    let (tree, entry) = entry_tree(&body);
    let mut warnings = Vec::new();
    let err = Transaction::build(&tree, entry, &mut warnings).unwrap_err();
    match err {
        FieldError::MissingNode { expr } => assert_eq!(expr, "BookgDt/Dt"),
        other => panic!("unexpected error: {:?}", variant_name(&other)),
    }
}

#[test]
fn malformed_date_names_the_path_and_text() {
    let body = FULL_ENTRY.replace("2023-05-02", "02.05.2023");
    let (tree, entry) = entry_tree(&body);
    let mut warnings = Vec::new();
    let err = Transaction::build(&tree, entry, &mut warnings).unwrap_err();
    match err {
        FieldError::BadDate { expr, text } => {
            assert_eq!(expr, "ValDt/Dt");
            assert_eq!(text, "02.05.2023");
        },
        other => panic!("unexpected error: {:?}", variant_name(&other)),
    }
}

#[test]
fn absent_party_names_degrade_with_a_warning() {
    let body = FULL_ENTRY
        .replace("<Cdtr><Nm>Alice GmbH</Nm></Cdtr>", "<Cdtr><SomethingElse/></Cdtr>");
    let (tree, entry) = entry_tree(&body);
    let mut warnings = Vec::new();
    let tx = Transaction::build(&tree, entry, &mut warnings).unwrap();
    assert_eq!(tx.creditor.name, "");
    assert_eq!(warnings.len(), 1);
    match &warnings[0] {
        Warning::NoCreditor { date, amount } => {
            assert_eq!(date.year, 2023);
            assert_eq!(amount, "100.00");
        },
        _ => panic!("expected a creditor warning"),
    }
}

#[test]
fn missing_currency_attribute_is_fatal() {
    let body = FULL_ENTRY.replace(" Ccy=\"EUR\"", "");
    let (tree, entry) = entry_tree(&body);
    let mut warnings = Vec::new();
    let err = Transaction::build(&tree, entry, &mut warnings).unwrap_err();
    assert!(matches!(err, FieldError::MissingCurrency));
}

#[test]
fn unknown_currency_code_is_fatal() {
    let body = FULL_ENTRY.replace("EUR", "XYZ");
    let (tree, entry) = entry_tree(&body);
    let mut warnings = Vec::new();
    let err = Transaction::build(&tree, entry, &mut warnings).unwrap_err();
    match err {
        FieldError::UnknownCurrency { code } => assert_eq!(code, "XYZ"),
        other => panic!("unexpected error: {:?}", variant_name(&other)),
    }
}

#[test]
fn non_numeric_amount_is_fatal() {
    let body = FULL_ENTRY.replace("100.00", "1,00");
    let (tree, entry) = entry_tree(&body);
    let mut warnings = Vec::new();
    let err = Transaction::build(&tree, entry, &mut warnings).unwrap_err();
    match err {
        FieldError::BadAmount { text } => assert_eq!(text, "1,00"),
        other => panic!("unexpected error: {:?}", variant_name(&other)),
    }
}

#[test]
fn missing_entry_type_is_fatal() {
    let body = FULL_ENTRY.replace("<AddtlNtryInf> Payment </AddtlNtryInf>", "");
    let (tree, entry) = entry_tree(&body);
    let mut warnings = Vec::new();
    let err = Transaction::build(&tree, entry, &mut warnings).unwrap_err();
    match err {
        FieldError::MissingNode { expr } => assert_eq!(expr, "AddtlNtryInf"),
        other => panic!("unexpected error: {:?}", variant_name(&other)),
    }
}

#[test]
fn absent_description_becomes_empty() {
    let body = FULL_ENTRY.replace(
        "<RmtInf><Ustrd>Part one</Ustrd><Ustrd> part two </Ustrd></RmtInf>",
        "",
    );
    let (tree, entry) = entry_tree(&body);
    let mut warnings = Vec::new();
    let tx = Transaction::build(&tree, entry, &mut warnings).unwrap();
    assert_eq!(tx.description, "");
}

#[test]
fn unicode_whitespace_is_trimmed() {
    assert_eq!(camt052::text::trim("\u{00A0}\u{2009}Alice\u{00A0}"), "Alice");
    assert_eq!(camt052::text::trim(" \u{3000}\u{00A0} "), "");
    let body = FULL_ENTRY.replace(
        "<Cdtr><Nm>Alice GmbH</Nm></Cdtr>",
        "<Cdtr><Nm>\u{00A0}Alice GmbH\u{00A0}</Nm></Cdtr>",
    );
    let (tree, entry) = entry_tree(&body);
    let mut warnings = Vec::new();
    let tx = Transaction::build(&tree, entry, &mut warnings).unwrap();
    assert_eq!(tx.creditor.name, "Alice GmbH");
}

fn variant_name(e: &FieldError) -> &'static str {
    match e {
        FieldError::MissingNode { .. } => "MissingNode",
        FieldError::BadDate { .. } => "BadDate",
        FieldError::BadAmount { .. } => "BadAmount",
        FieldError::MissingCurrency => "MissingCurrency",
        FieldError::UnknownCurrency { .. } => "UnknownCurrency",
    }
}
