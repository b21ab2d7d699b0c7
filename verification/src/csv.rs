//! The delimited-text rendering of a transaction list: the fixed header
//! row, one row per record, `;` as the delimiter, and quoting exactly
//! where a field holds the delimiter, a quote or a line break.
use vstd::prelude::*;
use crate::decimal::{render_decimal, render_decimal_spec};
use crate::iso_date::{render_date_spec, render_iso_date};
use crate::text::{join, join_spec};
use crate::transaction::{tx_views, Transaction, TxView};

verus! {

/// The delimited-text writer.
pub struct Csv;

/// Characters that force a field into quotes.
pub open spec fn is_special(c: char) -> bool {
    c == ';' || c == '"' || c == '\n' || c == '\r'
}

fn is_special_exec(c: char) -> (r: bool)
    ensures
        r == is_special(c),
{
    c == ';' || c == '"' || c == '\n' || c == '\r'
}

pub open spec fn needs_quote(s: Seq<char>) -> bool {
    exists|j: int| 0 <= j < s.len() && is_special(s[j])
}

/// The field text with every quote doubled.
pub open spec fn escape_quotes(s: Seq<char>) -> Seq<char>
    decreases s.len(),
{
    if s.len() == 0 {
        Seq::empty()
    } else if s[0] == '"' {
        seq!['"', '"'] + escape_quotes(s.drop_first())
    } else {
        seq![s[0]] + escape_quotes(s.drop_first())
    }
}

/// One rendered field: quoted and escaped exactly when it holds the
/// delimiter, a quote or a line break.
pub open spec fn csv_field(s: Seq<char>) -> Seq<char> {
    if needs_quote(s) {
        seq!['"'] + escape_quotes(s) + seq!['"']
    } else {
        s
    }
}

/// One rendered row: the fields, escaped, joined with `;`, closed by a
/// line feed.
pub open spec fn csv_row(fields: Seq<Seq<char>>) -> Seq<char> {
    join_spec(fields.map_values(|f: Seq<char>| csv_field(f)), ";"@) + "\n"@
}

/// The fixed header fields.
pub open spec fn header_fields() -> Seq<Seq<char>> {
    seq![
        "Date"@,
        "Valuta"@,
        "Amount"@,
        "Currency"@,
        "Creditor Name"@,
        "Creditor IBAN"@,
        "Debtor Name"@,
        "Debtor IBAN"@,
        "Transaction Type"@,
        "Description"@,
    ]
}

pub open spec fn opt_text(o: Option<Seq<char>>) -> Seq<char> {
    match o {
        Some(s) => s,
        None => Seq::empty(),
    }
}

/// The ten fields of one record, in the fixed output order.
pub open spec fn tx_fields(tx: TxView) -> Seq<Seq<char>> {
    seq![
        render_date_spec(tx.date),
        render_date_spec(tx.valuta),
        render_decimal_spec(tx.amount.mantissa, tx.amount.scale),
        tx.amount.currency,
        tx.creditor.name,
        opt_text(tx.creditor.iban),
        tx.debtor.name,
        opt_text(tx.debtor.iban),
        tx.transaction_type,
        tx.description,
    ]
}

/// The rows of the records, in order.
pub open spec fn tx_rows(txs: Seq<TxView>) -> Seq<char>
    decreases txs.len(),
{
    if txs.len() == 0 {
        Seq::empty()
    } else {
        csv_row(tx_fields(txs[0])) + tx_rows(txs.drop_first())
    }
}

/// The whole delimited-text output: the header row, then one row per
/// record.
pub open spec fn csv_spec(txs: Seq<TxView>) -> Seq<char> {
    csv_row(header_fields()) + tx_rows(txs)
}

/// Renders one field, quoting and escaping it exactly when needed.
fn render_field(s: &str) -> (r: String)
    ensures
        r@ == csv_field(s@),
{
    let n = s.unicode_len();
    let mut special = false;
    let mut i: usize = 0;
    while i < n
        invariant
            i <= n,
            n == s@.len(),
            special ==> exists|j: int| 0 <= j < i && is_special(s@[j]),
            !special ==> forall|j: int| 0 <= j < i ==> !is_special(s@[j]),
        decreases n - i,
    {
        if is_special_exec(s.get_char(i)) {
            proof {
                assert(is_special(s@[i as int]));
            }
            special = true;
        }
        i = i + 1;
    }
    if !special {
        proof {
            assert(!needs_quote(s@));
        }
        return s.to_owned();
    }
    let mut out = String::new();
    out.push('"');
    let mut i: usize = 0;
    proof {
        assert(s@.skip(0) =~= s@);
        assert(out@ =~= seq!['"']);
        assert(out@ + escape_quotes(s@) =~= seq!['"'] + escape_quotes(s@));
    }
    while i < n
        invariant
            i <= n,
            n == s@.len(),
            seq!['"'] + escape_quotes(s@) == out@ + escape_quotes(s@.skip(i as int)),
        decreases n - i,
    {
        let c = s.get_char(i);
        let ghost pre = out@;
        proof {
            assert(s@.skip(i as int)[0] == c);
            assert(s@.skip(i as int).drop_first() =~= s@.skip(i + 1));
        }
        if c == '"' {
            out.push('"');
            out.push('"');
            proof {
                assert(out@ =~= pre + seq!['"', '"']);
                assert((pre + seq!['"', '"']) + escape_quotes(s@.skip(i + 1)) =~= pre + (seq![
                    '"',
                    '"',
                ] + escape_quotes(s@.skip(i + 1))));
            }
        } else {
            out.push(c);
            proof {
                assert(out@ =~= pre + seq![c]);
                assert((pre + seq![c]) + escape_quotes(s@.skip(i + 1)) =~= pre + (seq![c]
                    + escape_quotes(s@.skip(i + 1))));
            }
        }
        i = i + 1;
    }
    out.push('"');
    proof {
        assert(s@.skip(n as int) =~= Seq::<char>::empty());
        assert(escape_quotes(Seq::<char>::empty()) =~= Seq::<char>::empty());
        assert(out@ =~= csv_field(s@));
    }
    out
}

/// Renders one row from already-plain field texts.
fn render_row(fields: &Vec<String>) -> (r: String)
    ensures
        r@ == csv_row(fields.deep_view()),
{
    let mut quoted: Vec<String> = Vec::new();
    let mut i: usize = 0;
    while i < fields.len()
        invariant
            i <= fields@.len(),
            quoted.deep_view() == fields.deep_view().map_values(
                |f: Seq<char>| csv_field(f),
            ).take(i as int),
        decreases fields@.len() - i,
    {
        let ghost pre = quoted.deep_view();
        let q = render_field(fields[i].as_str());
        quoted.push(q);
        proof {
            let mapped = fields.deep_view().map_values(|f: Seq<char>| csv_field(f));
            assert(mapped[i as int] == csv_field(fields.deep_view()[i as int]));
            assert(quoted.deep_view() =~= pre.push(mapped[i as int]));
            assert(mapped.take(i + 1) =~= mapped.take(i as int).push(mapped[i as int]));
        }
        i = i + 1;
    }
    proof {
        let mapped = fields.deep_view().map_values(|f: Seq<char>| csv_field(f));
        assert(mapped.take(fields@.len() as int) =~= mapped);
    }
    let mut out = join(&quoted, ";");
    out.append("\n");
    out
}

impl Csv {
    /// Renders the whole output: the fixed header row, then one row per
    /// transaction, in order.
    pub fn render(transactions: &Vec<Transaction>) -> (r: String)
        ensures
            r@ == csv_spec(tx_views(transactions@)),
    {
        let mut hdr: Vec<String> = Vec::new();
        hdr.push(String::from_str("Date"));
        hdr.push(String::from_str("Valuta"));
        hdr.push(String::from_str("Amount"));
        hdr.push(String::from_str("Currency"));
        hdr.push(String::from_str("Creditor Name"));
        hdr.push(String::from_str("Creditor IBAN"));
        hdr.push(String::from_str("Debtor Name"));
        hdr.push(String::from_str("Debtor IBAN"));
        hdr.push(String::from_str("Transaction Type"));
        hdr.push(String::from_str("Description"));
        proof {
            assert(hdr.deep_view() =~= header_fields());
        }
        let mut out = render_row(&hdr);
        let ghost tv = tx_views(transactions@);
        let mut i: usize = 0;
        proof {
            assert(tv.skip(0) =~= tv);
        }
        while i < transactions.len()
            invariant
                i <= transactions@.len(),
                tv == tx_views(transactions@),
                csv_spec(tv) == out@ + tx_rows(tv.skip(i as int)),
            decreases transactions@.len() - i,
        {
            let tx = &transactions[i];
            let mut fields: Vec<String> = Vec::new();
            fields.push(render_iso_date(&tx.date));
            fields.push(render_iso_date(&tx.valuta));
            fields.push(render_decimal(&tx.amount.amount));
            fields.push(tx.amount.currency.clone());
            fields.push(tx.creditor.name.clone());
            fields.push(
                match &tx.creditor.iban {
                    Some(s) => s.clone(),
                    None => String::new(),
                },
            );
            fields.push(tx.debtor.name.clone());
            fields.push(
                match &tx.debtor.iban {
                    Some(s) => s.clone(),
                    None => String::new(),
                },
            );
            fields.push(tx.transaction_type.clone());
            fields.push(tx.description.clone());
            proof {
                assert(fields.deep_view() =~= tx_fields(tv[i as int]));
            }
            let row = render_row(&fields);
            let ghost pre = out@;
            out.append(row.as_str());
            proof {
                assert(tv.skip(i as int)[0] == tv[i as int]);
                assert(tv.skip(i as int).drop_first() =~= tv.skip(i + 1));
                assert(tx_rows(tv.skip(i as int)) == csv_row(tx_fields(tv[i as int])) + tx_rows(
                    tv.skip(i + 1),
                ));
                assert((pre + (csv_row(tx_fields(tv[i as int])) + tx_rows(tv.skip(i + 1)))) =~= ((
                pre + csv_row(tx_fields(tv[i as int]))) + tx_rows(tv.skip(i + 1))));
            }
            i = i + 1;
        }
        proof {
            assert(tv.skip(transactions@.len() as int) =~= Seq::<TxView>::empty());
            assert(out@ + Seq::<char>::empty() =~= out@);
        }
        out
    }
}

} // verus!
