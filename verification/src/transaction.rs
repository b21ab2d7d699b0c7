//! Decoding one statement entry (`Ntry`) into a typed transaction record:
//! required dates, the signed exact amount with its currency, the two
//! parties with fallback name resolution and optional validated account
//! identifiers, and the joined free-text description.
use vstd::prelude::*;
use iban::IbanLike;
use crate::decimal::{parse_decimal, parse_decimal_spec, Decimal, MAX_SCALE};
use crate::errors::{warn_views, FieldError, FieldFail, WarnView, Warning};
use crate::iso_date::{parse_date_spec, parse_iso_date, IsoDate};
use crate::text::{join, join_spec, trim, trim_spec};
use crate::xml_document_finder::{attr_at, filter_path, text_at};
use crate::xml_tree::{idx_ints, NodeView, XmlTree};

verus! {

/// A counterparty: a display name (empty when unresolved) and an optional
/// validated account identifier in electronic format.
#[derive(Debug)]
pub struct Party {
    pub name: String,
    pub iban: Option<String>,
}

/// The ghost image of a party.
#[verifier::ext_equal]
pub ghost struct PartyView {
    pub name: Seq<char>,
    pub iban: Option<Seq<char>>,
}

impl View for Party {
    type V = PartyView;

    open spec fn view(&self) -> PartyView {
        PartyView {
            name: self.name@,
            iban: match self.iban {
                Some(ref s) => Some(s@),
                None => None,
            },
        }
    }
}

/// A monetary amount: the exact decimal value, sign already normalized,
/// and the currency code exactly as stated in the source.
#[derive(Debug)]
pub struct MyMoney {
    pub amount: Decimal,
    pub currency: String,
}

/// The ghost image of an amount.
#[verifier::ext_equal]
pub ghost struct MoneyView {
    pub mantissa: int,
    pub scale: nat,
    pub currency: Seq<char>,
}

impl View for MyMoney {
    type V = MoneyView;

    open spec fn view(&self) -> MoneyView {
        MoneyView {
            mantissa: self.amount.mantissa as int,
            scale: self.amount.scale as nat,
            currency: self.currency@,
        }
    }
}

/// One normalized financial movement decoded from one statement entry.
#[derive(Debug)]
pub struct Transaction {
    pub date: IsoDate,
    pub valuta: IsoDate,
    pub amount: MyMoney,
    pub creditor: Party,
    pub debtor: Party,
    pub transaction_type: String,
    pub description: String,
}

/// The ghost image of a transaction.
#[verifier::ext_equal]
pub ghost struct TxView {
    pub date: IsoDate,
    pub valuta: IsoDate,
    pub amount: MoneyView,
    pub creditor: PartyView,
    pub debtor: PartyView,
    pub transaction_type: Seq<char>,
    pub description: Seq<char>,
}

impl View for Transaction {
    type V = TxView;

    open spec fn view(&self) -> TxView {
        TxView {
            date: self.date,
            valuta: self.valuta,
            amount: self.amount@,
            creditor: self.creditor@,
            debtor: self.debtor@,
            transaction_type: self.transaction_type@,
            description: self.description@,
        }
    }
}

/// The ghost images of a transaction list.
pub open spec fn tx_views(s: Seq<Transaction>) -> Seq<TxView> {
    Seq::new(s.len(), |i: int| s[i]@)
}

/// Whether the fixed ISO 4217 table knows a currency code.
pub uninterp spec fn currency_known(code: Seq<char>) -> bool;

/// Relies on `rusty_money::iso::find`: a lookup, keyed by the alphabetic
/// code, in the fixed currency table compiled into the crate.
#[verifier::external_body]
fn find_currency(code: &str) -> (r: bool)
    ensures
        r == currency_known(code@),
{
    rusty_money::iso::find(code).is_some()
}

/// What account-identifier validation makes of a string: the
/// electronic-format identifier when the text passes, absent when not.
pub uninterp spec fn iban_norm(s: Seq<char>) -> Option<Seq<char>>;

/// Relies on `iban::Iban`'s `FromStr` and `IbanLike::electronic_str`:
/// acceptance and the normalized text are functions of the input alone.
#[verifier::external_body]
fn parse_iban(s: &str) -> (r: Option<String>)
    ensures
        (r is Some) == (iban_norm(s@) is Some),
        r matches Some(t) ==> iban_norm(s@) == Some(t@),
{
    match s.parse::<iban::Iban>() {
        Ok(i) => Some(i.electronic_str().to_string()),
        Err(_) => None,
    }
}

/// The first party-name path that resolves to text, if either does.
pub open spec fn party_name_at(
    t: Seq<NodeView>,
    e: int,
    p1: Seq<char>,
    p2: Seq<char>,
) -> Option<Seq<char>> {
    match text_at(t, e, p1) {
        Some(s) => Some(s),
        None => text_at(t, e, p2),
    }
}

/// The identifier of a party: present only when the node has text and the
/// trimmed text passes validation.
pub open spec fn party_iban_at(t: Seq<NodeView>, e: int, path: Seq<char>) -> Option<Seq<char>> {
    match text_at(t, e, path) {
        None => None,
        Some(s) => iban_norm(trim_spec(s)),
    }
}

/// The trimmed text of each collected description node; a node without
/// text contributes an empty fragment.
pub open spec fn ustrd_texts(t: Seq<NodeView>, ns: Seq<int>) -> Seq<Seq<char>> {
    Seq::new(
        ns.len(),
        |i: int|
            if 0 <= ns[i] < t.len() {
                match t[ns[i]].text {
                    Some(s) => trim_spec(s),
                    None => Seq::empty(),
                }
            } else {
                Seq::empty()
            },
    )
}

/// The description: all `Ustrd` fragments, trimmed, joined with `"; "`.
pub open spec fn description_at(t: Seq<NodeView>, e: int) -> Seq<char> {
    join_spec(ustrd_texts(t, filter_path(t, e, "NtryDtls/TxDtls/RmtInf/Ustrd"@)), "; "@)
}

/// Everything the builder decides for one entry: either the failure, or
/// the decoded fields; both with the soft warnings raised on the way.
pub ghost enum BuildOutcome {
    Fail(FieldFail, Seq<WarnView>),
    Done(TxView, Seq<WarnView>),
}

/// The decoding of one entry, stage by stage: required booking and value
/// dates, the debit indicator, required amount text and currency
/// attribute, parties with soft fallbacks, required entry type, joined
/// description, and last the exact amount with its sign and currency.
pub open spec fn build_spec(t: Seq<NodeView>, e: int) -> BuildOutcome {
    match text_at(t, e, "BookgDt/Dt"@) {
        None => BuildOutcome::Fail(FieldFail::MissingNode("BookgDt/Dt"@), Seq::empty()),
        Some(date_t) => match parse_date_spec(date_t) {
            None => BuildOutcome::Fail(FieldFail::BadDate("BookgDt/Dt"@, date_t), Seq::empty()),
            Some(date) => match text_at(t, e, "ValDt/Dt"@) {
                None => BuildOutcome::Fail(FieldFail::MissingNode("ValDt/Dt"@), Seq::empty()),
                Some(val_t) => match parse_date_spec(val_t) {
                    None => BuildOutcome::Fail(
                        FieldFail::BadDate("ValDt/Dt"@, val_t),
                        Seq::empty(),
                    ),
                    Some(valuta) => {
                        let debit = text_at(t, e, "CdtDbtInd"@) == Some("DBIT"@);
                        match text_at(t, e, "Amt"@) {
                            None => BuildOutcome::Fail(
                                FieldFail::MissingNode("Amt"@),
                                Seq::empty(),
                            ),
                            Some(amt_t) => match attr_at(t, e, "Amt"@, "Ccy"@) {
                                None => BuildOutcome::Fail(
                                    FieldFail::MissingCurrency,
                                    Seq::empty(),
                                ),
                                Some(ccy) => build_parties_spec(
                                    t,
                                    e,
                                    date,
                                    valuta,
                                    debit,
                                    amt_t,
                                    ccy,
                                ),
                            },
                        }
                    },
                },
            },
        },
    }
}

/// The later stages, once the required scalar fields are in hand.
pub open spec fn build_parties_spec(
    t: Seq<NodeView>,
    e: int,
    date: IsoDate,
    valuta: IsoDate,
    debit: bool,
    amt_t: Seq<char>,
    ccy: Seq<char>,
) -> BuildOutcome {
    let cred_name_o = party_name_at(
        t,
        e,
        "NtryDtls/TxDtls/RltdPties/Cdtr/Nm"@,
        "NtryDtls/TxDtls/RltdPties/Cdtr/Pty/Nm"@,
    );
    let debt_name_o = party_name_at(
        t,
        e,
        "NtryDtls/TxDtls/RltdPties/Dbtr/Nm"@,
        "NtryDtls/TxDtls/RltdPties/Dbtr/Pty/Nm"@,
    );
    let cred_ws: Seq<WarnView> = if cred_name_o is None {
        seq![WarnView::NoCreditor(date, amt_t)]
    } else {
        Seq::empty()
    };
    let debt_ws: Seq<WarnView> = if debt_name_o is None {
        seq![WarnView::NoDebtor(date, amt_t)]
    } else {
        Seq::empty()
    };
    let ws = cred_ws + debt_ws;
    let creditor = PartyView {
        name: match cred_name_o {
            Some(s) => trim_spec(s),
            None => Seq::empty(),
        },
        iban: party_iban_at(t, e, "NtryDtls/TxDtls/RltdPties/CdtrAcct/Id/IBAN"@),
    };
    let debtor = PartyView {
        name: match debt_name_o {
            Some(s) => trim_spec(s),
            None => Seq::empty(),
        },
        iban: party_iban_at(t, e, "NtryDtls/TxDtls/RltdPties/DbtrAcct/Id/IBAN"@),
    };
    match text_at(t, e, "AddtlNtryInf"@) {
        None => BuildOutcome::Fail(FieldFail::MissingNode("AddtlNtryInf"@), ws),
        Some(tt) => {
            let description = description_at(t, e);
            match parse_decimal_spec(amt_t) {
                None => BuildOutcome::Fail(FieldFail::BadAmount(amt_t), ws),
                Some((v, sc)) => if !(sc <= MAX_SCALE && -i128::MAX <= v <= i128::MAX) {
                    BuildOutcome::Fail(FieldFail::BadAmount(amt_t), ws)
                } else if !currency_known(ccy) {
                    BuildOutcome::Fail(FieldFail::UnknownCurrency(ccy), ws)
                } else {
                    BuildOutcome::Done(
                        TxView {
                            date,
                            valuta,
                            amount: MoneyView {
                                mantissa: if debit {
                                    -v
                                } else {
                                    v
                                },
                                scale: sc,
                                currency: ccy,
                            },
                            creditor,
                            debtor,
                            transaction_type: trim_spec(tt),
                            description,
                        },
                        ws,
                    )
                },
            }
        },
    }
}

impl Transaction {
    /// Decodes one entry element into a transaction record, appending any
    /// soft warnings raised on the way; a returned error aborts only this
    /// record.
    pub fn build(tree: &XmlTree, entry: usize, warnings: &mut Vec<Warning>) -> (r: Result<
        Transaction,
        FieldError,
    >)
        requires
            tree.wf(),
            entry < tree@.len(),
        ensures
            match build_spec(tree@, entry as int) {
                BuildOutcome::Fail(f, ws) => r matches Err(e) && e.corresponds(f)
                    && warn_views(final(warnings)@) == warn_views(old(warnings)@) + ws,
                BuildOutcome::Done(tx, ws) => r matches Ok(t) && t@ == tx
                    && warn_views(final(warnings)@) == warn_views(old(warnings)@) + ws,
            },
    {
        let ghost t = tree@;
        let ghost e = entry as int;
        let ghost w0 = warn_views(warnings@);
        proof {
            assert(w0 + Seq::<WarnView>::empty() =~= w0);
            assert(warn_views(warnings@) == w0);
        }
        let date_t = match tree.find_text(entry, "BookgDt/Dt") {
            Some(s) => s,
            None => {
                return Err(FieldError::MissingNode { expr: "BookgDt/Dt".to_owned() });
            },
        };
        let date = match parse_iso_date(date_t.as_str()) {
            Some(d) => d,
            None => {
                return Err(FieldError::BadDate { expr: "BookgDt/Dt".to_owned(), text: date_t });
            },
        };
        let val_t = match tree.find_text(entry, "ValDt/Dt") {
            Some(s) => s,
            None => {
                return Err(FieldError::MissingNode { expr: "ValDt/Dt".to_owned() });
            },
        };
        let valuta = match parse_iso_date(val_t.as_str()) {
            Some(d) => d,
            None => {
                return Err(FieldError::BadDate { expr: "ValDt/Dt".to_owned(), text: val_t });
            },
        };
        let debit = match tree.find_text(entry, "CdtDbtInd") {
            Some(s) => {
                let dbit = String::from_str("DBIT");
                s == dbit
            },
            None => false,
        };
        proof {
            assert(debit == (text_at(t, e, "CdtDbtInd"@) == Some("DBIT"@)));
        }
        let amt_t = match tree.find_text(entry, "Amt") {
            Some(s) => s,
            None => {
                return Err(FieldError::MissingNode { expr: "Amt".to_owned() });
            },
        };
        let ccy = match tree.find_attr(entry, "Amt", "Ccy") {
            Some(s) => s,
            None => {
                return Err(FieldError::MissingCurrency);
            },
        };
        // Parties: name with fallback path, then optional identifier.
        let cred_name_o = match tree.find_text(entry, "NtryDtls/TxDtls/RltdPties/Cdtr/Nm") {
            Some(s) => Some(s),
            None => tree.find_text(entry, "NtryDtls/TxDtls/RltdPties/Cdtr/Pty/Nm"),
        };
        let cred_name = match cred_name_o {
            Some(s) => trim(s.as_str()),
            None => {
                warnings.push(Warning::NoCreditor { date, amount: amt_t.clone() });
                String::new()
            },
        };
        
        let cred_iban = match tree.find_text(entry, "NtryDtls/TxDtls/RltdPties/CdtrAcct/Id/IBAN") {
            Some(s) => {
                let trimmed = trim(s.as_str());
                parse_iban(trimmed.as_str())
            },
            None => None,
        };
        let debt_name_o = match tree.find_text(entry, "NtryDtls/TxDtls/RltdPties/Dbtr/Nm") {
            Some(s) => Some(s),
            None => tree.find_text(entry, "NtryDtls/TxDtls/RltdPties/Dbtr/Pty/Nm"),
        };
        let debt_name = match debt_name_o {
            Some(s) => trim(s.as_str()),
            None => {
                warnings.push(Warning::NoDebtor { date, amount: amt_t.clone() });
                String::new()
            },
        };
        let debt_iban = match tree.find_text(entry, "NtryDtls/TxDtls/RltdPties/DbtrAcct/Id/IBAN") {
            Some(s) => {
                let trimmed = trim(s.as_str());
                parse_iban(trimmed.as_str())
            },
            None => None,
        };
        let ghost ws = {
            let cred_ws: Seq<WarnView> = if party_name_at(
                t,
                e,
                "NtryDtls/TxDtls/RltdPties/Cdtr/Nm"@,
                "NtryDtls/TxDtls/RltdPties/Cdtr/Pty/Nm"@,
            ) is None {
                seq![WarnView::NoCreditor(date, amt_t@)]
            } else {
                Seq::empty()
            };
            let debt_ws: Seq<WarnView> = if party_name_at(
                t,
                e,
                "NtryDtls/TxDtls/RltdPties/Dbtr/Nm"@,
                "NtryDtls/TxDtls/RltdPties/Dbtr/Pty/Nm"@,
            ) is None {
                seq![WarnView::NoDebtor(date, amt_t@)]
            } else {
                Seq::empty()
            };
            cred_ws + debt_ws
        };
        proof {
            assert(warn_views(warnings@) =~= w0 + ws);
        }
        let tt = match tree.find_text(entry, "AddtlNtryInf") {
            Some(s) => trim(s.as_str()),
            None => {
                return Err(FieldError::MissingNode { expr: "AddtlNtryInf".to_owned() });
            },
        };
        // Description fragments, in document order.
        let nodes = tree.filter(entry, "NtryDtls/TxDtls/RmtInf/Ustrd");
        let ghost ns = idx_ints(nodes@);
        let mut parts: Vec<String> = Vec::new();
        let mut i: usize = 0;
        proof {
            assert(parts.deep_view() =~= ustrd_texts(t, ns).take(0));
        }
        while i < nodes.len()
            invariant
                i <= nodes@.len(),
                tree.wf(),
                ns == idx_ints(nodes@),
                forall|q: int| 0 <= q < nodes@.len() ==> (#[trigger] nodes@[q]) < tree@.len(),
                parts.deep_view() == ustrd_texts(tree@, ns).take(i as int),
            decreases nodes@.len() - i,
        {
            let c = nodes[i];
            let ghost pre = parts.deep_view();
            let piece = match &tree.nodes[c].text {
                Some(s) => trim(s.as_str()),
                None => String::new(),
            };
            proof {
                assert(ns[i as int] == c as int);
                assert(tree@[c as int].text == tree.nodes@[c as int]@.text);
                assert(piece@ == ustrd_texts(tree@, ns)[i as int]);
            }
            parts.push(piece);
            proof {
                assert(parts.deep_view() =~= pre.push(ustrd_texts(tree@, ns)[i as int]));
                assert(ustrd_texts(tree@, ns).take(i + 1) =~= ustrd_texts(tree@, ns).take(
                    i as int,
                ).push(ustrd_texts(tree@, ns)[i as int]));
            }
            i = i + 1;
        }
        proof {
            assert(ustrd_texts(tree@, ns).take(nodes@.len() as int) =~= ustrd_texts(tree@, ns));
        }
        let description = join(&parts, "; ");
        // The exact amount: plain period-decimal, negated for debits.
        let dec = match parse_decimal(amt_t.as_str()) {
            Some(d) => d,
            None => {
                return Err(FieldError::BadAmount { text: amt_t });
            },
        };
        let dec = if debit {
            dec.negate()
        } else {
            dec
        };
        if !find_currency(ccy.as_str()) {
            return Err(FieldError::UnknownCurrency { code: ccy });
        }
        let result = Transaction {
            date,
            valuta,
            amount: MyMoney { amount: dec, currency: ccy },
            creditor: Party { name: cred_name, iban: cred_iban },
            debtor: Party { name: debt_name, iban: debt_iban },
            transaction_type: tt,
            description,
        };
        proof {
            match build_spec(t, e) {
                BuildOutcome::Done(tx, ws2) => {
                    assert(result@ =~= tx);
                },
                BuildOutcome::Fail(f, ws2) => {},
            }
        }
        Ok(result)
    }
}

/// Law: a debit entry's amount is the negation of the stated magnitude;
/// a credit entry (or one with no indicator) keeps it unchanged.
pub proof fn lemma_debit_sign(t: Seq<NodeView>, e: int, tx: TxView, ws: Seq<WarnView>)
    requires
        build_spec(t, e) == BuildOutcome::Done(tx, ws),
    ensures
        text_at(t, e, "Amt"@) matches Some(amt_t) && parse_decimal_spec(amt_t) matches Some(p)
            && tx.amount.mantissa == if text_at(t, e, "CdtDbtInd"@) == Some("DBIT"@) {
            -p.0
        } else {
            p.0
        },
{
}

} // verus!
