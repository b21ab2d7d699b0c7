//! The failure and warning taxonomy of the extraction pipeline.
//!
//! Hard failures abort the record, the file and the batch; warnings only
//! degrade a single value and are reported alongside the results.
use vstd::prelude::*;
use crate::iso_date::IsoDate;

verus! {

/// A per-record decoding failure; the caller that knows the file path
/// attaches it when wrapping this into a [`CamtError`].
#[derive(Debug)]
pub enum FieldError {
    /// A required node, or its text, is absent; `expr` is the path
    /// expression that did not resolve.
    MissingNode { expr: String },
    /// The node's text does not match the `YYYY-MM-DD` date pattern.
    BadDate { expr: String, text: String },
    /// The amount text is not a plain period-decimal number this library
    /// can hold exactly.
    BadAmount { text: String },
    /// The `Amt` node carries no `Ccy` attribute.
    MissingCurrency,
    /// A currency code that the fixed currency table does not know.
    UnknownCurrency { code: String },
}

/// The ghost image of a [`FieldError`], for stating contracts.
pub ghost enum FieldFail {
    MissingNode(Seq<char>),
    BadDate(Seq<char>, Seq<char>),
    BadAmount(Seq<char>),
    MissingCurrency,
    UnknownCurrency(Seq<char>),
}

impl FieldError {
    /// Whether this error carries exactly the data of the ghost image `f`.
    pub open spec fn corresponds(&self, f: FieldFail) -> bool {
        match self {
            FieldError::MissingNode { expr } => f matches FieldFail::MissingNode(e) && expr@ == e,
            FieldError::BadDate { expr, text } => f matches FieldFail::BadDate(e, t) && expr@ == e
                && text@ == t,
            FieldError::BadAmount { text } => f matches FieldFail::BadAmount(t) && text@ == t,
            FieldError::MissingCurrency => f is MissingCurrency,
            FieldError::UnknownCurrency { code } => f matches FieldFail::UnknownCurrency(c)
                && code@ == c,
        }
    }
}

/// A failure that aborts the whole batch.
#[derive(Debug)]
pub enum CamtError {
    /// Input paths that do not exist or are not regular files; the batch
    /// never starts.
    MissingFiles { files: Vec<String> },
    /// Bytes announced as an archive did not open as one.
    ZipOpen { path: String, detail: String },
    /// An archive entry could not be read or decompressed.
    ZipEntry { path: String, index: usize, detail: String },
    /// Bytes announced as a document did not parse as XML.
    XmlParse { path: String, detail: String },
    /// One entry of the document could not be decoded.
    Record { path: String, error: FieldError },
    /// Archive nesting deeper than the dispatcher's generous hard ceiling;
    /// in practice memory is exhausted long before this fires.
    NestingTooDeep { path: String },
}

/// The ghost image of a [`CamtError`]: everything but the wrapped parser
/// diagnostics, which pass through unconstrained.
pub ghost enum ErrView {
    MissingFiles(Seq<Seq<char>>),
    ZipOpen(Seq<char>),
    ZipEntry(Seq<char>, int),
    XmlParse(Seq<char>),
    Record(Seq<char>, FieldFail),
}

impl CamtError {
    /// Whether this error carries the data of the ghost image `v`.
    pub open spec fn corresponds(&self, v: ErrView) -> bool {
        match self {
            CamtError::MissingFiles { files } => v matches ErrView::MissingFiles(fs)
                && files.deep_view() == fs,
            CamtError::ZipOpen { path, .. } => v matches ErrView::ZipOpen(p) && path@ == p,
            CamtError::ZipEntry { path, index, .. } => v matches ErrView::ZipEntry(p, i) && path@
                == p && index == i,
            CamtError::XmlParse { path, .. } => v matches ErrView::XmlParse(p) && path@ == p,
            CamtError::Record { path, error } => v matches ErrView::Record(p, f) && path@ == p
                && error.corresponds(f),
            CamtError::NestingTooDeep { .. } => false,
        }
    }
}

/// A soft condition: the value degrades, processing continues.
#[derive(Debug)]
pub enum Warning {
    /// A recognized document held no entries at all.
    NoEntries { path: String },
    /// A stream that is neither an archive nor a document was skipped.
    Unrecognized { path: String },
    /// Neither creditor name path resolved; the name became empty.
    NoCreditor { date: IsoDate, amount: String },
    /// Neither debtor name path resolved; the name became empty.
    NoDebtor { date: IsoDate, amount: String },
}

/// The ghost image of a [`Warning`].
pub ghost enum WarnView {
    NoEntries(Seq<char>),
    Unrecognized(Seq<char>),
    NoCreditor(IsoDate, Seq<char>),
    NoDebtor(IsoDate, Seq<char>),
}

impl View for Warning {
    type V = WarnView;

    open spec fn view(&self) -> WarnView {
        match self {
            Warning::NoEntries { path } => WarnView::NoEntries(path@),
            Warning::Unrecognized { path } => WarnView::Unrecognized(path@),
            Warning::NoCreditor { date, amount } => WarnView::NoCreditor(*date, amount@),
            Warning::NoDebtor { date, amount } => WarnView::NoDebtor(*date, amount@),
        }
    }
}

/// The ghost images of a warning list.
pub open spec fn warn_views(ws: Seq<Warning>) -> Seq<WarnView> {
    Seq::new(ws.len(), |i: int| ws[i]@)
}

} // verus!
