//! The container dispatcher and batch orchestrator: sniff each byte
//! stream, unpack archives entry by entry (to any nesting depth), hand
//! documents to the entry decoder, and stitch all records back together in
//! input, archive and document order. The first hard failure aborts the
//! batch; unrecognized streams only warn.
use vstd::prelude::*;
use crate::errors::{warn_views, CamtError, ErrView, FieldFail, WarnView, Warning};
use crate::transaction::{build_spec, tx_views, BuildOutcome, Transaction, TxView};
use crate::xml_document_finder::filter_path;
use crate::xml_tree::{idx_ints, parse_xml, xml_doc_view, NodeView};
use vstd::slice::slice_subrange;

verus! {

/// The three-way classification of a byte stream's leading bytes.
#[derive(Clone, Copy, Debug, PartialEq, Eq, Structural)]
pub enum ContentKind {
    Archive,
    Xml,
    Unrecognized,
}

/// The MIME label content sniffing attaches to a byte prefix.
pub uninterp spec fn sniffed_mime(prefix: Seq<u8>) -> Seq<char>;

/// Relies on `tree_magic_mini::from_u8` with the compiled-in magic
/// database: the detected MIME label is a function of the bytes alone.
#[verifier::external_body]
fn sniff_mime(prefix: &[u8]) -> (r: String)
    ensures
        r@ == sniffed_mime(prefix@),
{
    tree_magic_mini::from_u8(prefix).to_string()
}

/// How many leading bytes classification looks at.
pub const SNIFF_LEN: usize = 2048;

/// The prefix that classification inspects.
pub open spec fn sniff_prefix(data: Seq<u8>) -> Seq<u8> {
    if data.len() <= SNIFF_LEN {
        data
    } else {
        data.take(SNIFF_LEN as int)
    }
}

/// The classification of a stream: archive, document, or neither.
pub open spec fn classify_spec(data: Seq<u8>) -> ContentKind {
    let mime = sniffed_mime(sniff_prefix(data));
    if mime == "application/zip"@ {
        ContentKind::Archive
    } else if mime == "application/xml"@ {
        ContentKind::Xml
    } else {
        ContentKind::Unrecognized
    }
}

/// Classifies a stream by sniffing its leading bytes.
pub fn classify(data: &Vec<u8>) -> (k: ContentKind)
    ensures
        k == classify_spec(data@),
{
    let n = if data.len() <= SNIFF_LEN {
        data.len()
    } else {
        SNIFF_LEN
    };
    let prefix = slice_subrange(data.as_slice(), 0, n);
    proof {
        assert(prefix@ =~= sniff_prefix(data@));
    }
    let mime = sniff_mime(prefix);
    let zip_label = String::from_str("application/zip");
    let xml_label = String::from_str("application/xml");
    if mime == zip_label {
        ContentKind::Archive
    } else if mime == xml_label {
        ContentKind::Xml
    } else {
        ContentKind::Unrecognized
    }
}

/// The entry names of an archive, in central directory order; `None` when
/// the bytes do not open as an archive.
pub uninterp spec fn zip_names(data: Seq<u8>) -> Option<Seq<Seq<char>>>;

/// The decompressed contents of entry `i`; `None` when the entry cannot be
/// fully read.
pub uninterp spec fn zip_entry_data(data: Seq<u8>, i: int) -> Option<Seq<u8>>;

/// Relies on `zip::ZipArchive::new` over an in-memory cursor and
/// `ZipArchive::len`: whether bytes open as an archive, and the entry
/// count, are functions of the bytes alone.
#[verifier::external_body]
fn zip_count(data: &Vec<u8>) -> (r: Result<usize, String>)
    ensures
        (r is Ok) == (zip_names(data@) is Some),
        r matches Ok(n) ==> zip_names(data@) matches Some(ns) && ns.len() == n,
{
    match zip::ZipArchive::new(std::io::Cursor::new(data.as_slice())) {
        Ok(a) => Ok(a.len()),
        Err(e) => Err(e.to_string()),
    }
}

/// Relies on `zip::ZipArchive::by_index`, `ZipFile::name` and
/// `Read::read_to_end` on the entry: the name and whether the contents
/// fully decompress are functions of the archive bytes and the index, and
/// `by_index` follows central directory order.
#[verifier::external_body]
fn zip_entry(data: &Vec<u8>, i: usize) -> (r: Result<(String, Vec<u8>), String>)
    requires
        zip_names(data@) matches Some(ns) && i < ns.len(),
    ensures
        (r is Ok) == (zip_entry_data(data@, i as int) is Some),
        r matches Ok(p) ==> zip_names(data@) matches Some(ns) && p.0@ == ns[i as int]
            && zip_entry_data(data@, i as int) == Some(p.1@),
{
    let cur = std::io::Cursor::new(data.as_slice());
    let mut a = zip::ZipArchive::new(cur).map_err(|e| e.to_string())?;
    let mut f = a.by_index(i).map_err(|e| e.to_string())?;
    let name = f.name().to_string();
    let mut buf = Vec::new();
    std::io::Read::read_to_end(&mut f, &mut buf).map_err(|e| e.to_string())?;
    Ok((name, buf))
}

/// An owned copy of a byte buffer.
fn clone_bytes(v: &Vec<u8>) -> (r: Vec<u8>)
    ensures
        r@ == v@,
{
    let mut r: Vec<u8> = Vec::new();
    let mut i: usize = 0;
    while i < v.len()
        invariant
            i <= v@.len(),
            r@ =~= v@.take(i as int),
        decreases v@.len() - i,
    {
        r.push(v[i]);
        proof {
            assert(r@ =~= v@.take(i + 1));
        }
        i = i + 1;
    }
    proof {
        assert(v@.take(v@.len() as int) =~= v@);
    }
    r
}

/// The display path of an archive member: the container's path, a slash,
/// and the member's internal name.
fn path_join(parent: &str, name: &str) -> (r: String)
    ensures
        r@ == parent@ + "/"@ + name@,
{
    let mut out = parent.to_owned();
    out.append("/");
    out.append(name);
    out
}

/// What one XML document yields: a parse failure, one entry's failure, or
/// all records; with the soft warnings raised on the way.
pub ghost enum DocOutcome {
    BadXml,
    Fail(FieldFail, Seq<WarnView>),
    Done(Seq<TxView>, Seq<WarnView>),
}

/// The fixed repeating path of statement entries.
pub open spec fn entries_of(t: Seq<NodeView>) -> Seq<int> {
    filter_path(t, 0, "Document/BkToCstmrAcctRpt/Rpt/Ntry"@)
}

/// Decoding the entries in order; the first failure aborts the document,
/// keeping the warnings the earlier entries already raised.
pub open spec fn entries_fold(t: Seq<NodeView>, es: Seq<int>) -> DocOutcome
    decreases es.len(),
{
    if es.len() == 0 {
        DocOutcome::Done(Seq::empty(), Seq::empty())
    } else {
        match build_spec(t, es[0]) {
            BuildOutcome::Fail(f, ws) => DocOutcome::Fail(f, ws),
            BuildOutcome::Done(tx, ws) => match entries_fold(t, es.drop_first()) {
                DocOutcome::BadXml => DocOutcome::BadXml,
                DocOutcome::Fail(f, ws2) => DocOutcome::Fail(f, ws + ws2),
                DocOutcome::Done(txs, ws2) => DocOutcome::Done(seq![tx] + txs, ws + ws2),
            },
        }
    }
}

/// The document-level outcome for a byte stream announced as XML: parse it,
/// collect the repeated entries (none is no error, only a warning), and
/// decode them in order.
pub open spec fn doc_spec(path: Seq<char>, data: Seq<u8>) -> DocOutcome {
    match xml_doc_view(data) {
        None => DocOutcome::BadXml,
        Some(t) => {
            let es = entries_of(t);
            if es.len() == 0 {
                DocOutcome::Done(Seq::empty(), seq![WarnView::NoEntries(path)])
            } else {
                entries_fold(t, es)
            }
        },
    }
}

/// The document outcome with records and warnings accumulated so far
/// folded in front.
pub open spec fn lift_doc(txs0: Seq<TxView>, ws0: Seq<WarnView>, o: DocOutcome) -> DocOutcome {
    match o {
        DocOutcome::BadXml => DocOutcome::BadXml,
        DocOutcome::Fail(f, ws) => DocOutcome::Fail(f, ws0 + ws),
        DocOutcome::Done(txs, ws) => DocOutcome::Done(txs0 + txs, ws0 + ws),
    }
}

/// Extracts all records of one XML document, in document order; one bad
/// entry fails the whole document.
pub fn process_xml(path: &str, data: &Vec<u8>, warnings: &mut Vec<Warning>) -> (r: Result<
    Vec<Transaction>,
    CamtError,
>)
    ensures
        match doc_spec(path@, data@) {
            DocOutcome::BadXml => r matches Err(e) && e.corresponds(ErrView::XmlParse(path@)),
            DocOutcome::Fail(f, ws) => r matches Err(e) && e.corresponds(
                ErrView::Record(path@, f),
            ) && warn_views(final(warnings)@) == warn_views(old(warnings)@) + ws,
            DocOutcome::Done(txs, ws) => r matches Ok(v) && tx_views(v@) == txs && warn_views(
                final(warnings)@,
            ) == warn_views(old(warnings)@) + ws,
        },
{
    let ghost w0 = warn_views(warnings@);
    let tree = match parse_xml(data) {
        Ok(t) => t,
        Err(detail) => {
            return Err(CamtError::XmlParse { path: path.to_owned(), detail });
        },
    };
    let entries = tree.filter(0, "Document/BkToCstmrAcctRpt/Rpt/Ntry");
    let ghost es = idx_ints(entries@);
    if entries.len() == 0 {
        warnings.push(Warning::NoEntries { path: path.to_owned() });
        proof {
            assert(warn_views(warnings@) =~= w0 + seq![WarnView::NoEntries(path@)]);
        }
        return Ok(Vec::new());
    }
    let mut out: Vec<Transaction> = Vec::new();
    let ghost mut wdelta: Seq<WarnView> = Seq::empty();
    let mut i: usize = 0;
    proof {
        assert(warn_views(warnings@) =~= w0 + wdelta);
        assert(es.skip(0) =~= es);
    }
    while i < entries.len()
        invariant
            i <= entries@.len(),
            tree.wf(),
            xml_doc_view(data@) == Some(tree@),
            es == idx_ints(entries@),
            es == entries_of(tree@),
            es.len() > 0,
            forall|q: int| 0 <= q < entries@.len() ==> (#[trigger] entries@[q]) < tree@.len(),
            warn_views(warnings@) == w0 + wdelta,
            w0 == warn_views(old(warnings)@),
            entries_fold(tree@, es) == lift_doc(
                tx_views(out@),
                wdelta,
                entries_fold(tree@, es.skip(i as int)),
            ),
        decreases entries@.len() - i,
    {
        let ghost rest = entries_fold(tree@, es.skip(i as int));
        proof {
            assert(es.skip(i as int)[0] == es[i as int]);
            assert(es.skip(i as int).drop_first() =~= es.skip(i + 1));
        }
        match Transaction::build(&tree, entries[i], warnings) {
            Err(e) => {
                proof {
                    match build_spec(tree@, es[i as int]) {
                        BuildOutcome::Fail(f, ws) => {
                            assert(rest == DocOutcome::Fail(f, ws));
                            assert(entries_fold(tree@, es) == DocOutcome::Fail(f, wdelta + ws));
                            assert(warn_views(warnings@) =~= w0 + (wdelta + ws));
                        },
                        BuildOutcome::Done(tx, ws) => {
                            assert(false);
                        },
                    }
                }
                return Err(CamtError::Record { path: path.to_owned(), error: e });
            },
            Ok(tx) => {
                let ghost pre_out = tx_views(out@);
                let ghost pre_w = wdelta;
                out.push(tx);
                proof {
                    match build_spec(tree@, es[i as int]) {
                        BuildOutcome::Done(txv, ws) => {
                            wdelta = pre_w + ws;
                            assert(tx_views(out@) =~= pre_out + seq![txv]);
                            assert(warn_views(warnings@) =~= w0 + wdelta);
                            match entries_fold(tree@, es.skip(i + 1)) {
                                DocOutcome::BadXml => {
                                    assert(entries_fold(tree@, es) == lift_doc(
                                        pre_out,
                                        pre_w,
                                        rest,
                                    ));
                                },
                                DocOutcome::Fail(f2, ws2) => {
                                    assert(rest == DocOutcome::Fail(f2, ws + ws2));
                                    assert((pre_w + (ws + ws2)) =~= ((pre_w + ws) + ws2));
                                },
                                DocOutcome::Done(txs2, ws2) => {
                                    assert(rest == DocOutcome::Done(seq![txv] + txs2, ws + ws2));
                                    assert((pre_out + (seq![txv] + txs2)) =~= ((pre_out + seq![
                                        txv,
                                    ]) + txs2));
                                    assert((pre_w + (ws + ws2)) =~= ((pre_w + ws) + ws2));
                                },
                            }
                        },
                        BuildOutcome::Fail(f, ws) => {
                            assert(false);
                        },
                    }
                }
            },
        }
        i = i + 1;
    }
    proof {
        assert(es.skip(entries@.len() as int) =~= Seq::<int>::empty());
        assert(entries_fold(tree@, Seq::<int>::empty()) == DocOutcome::Done(
            Seq::<TxView>::empty(),
            Seq::<WarnView>::empty(),
        ));
        assert(tx_views(out@) + Seq::<TxView>::empty() =~= tx_views(out@));
        assert(wdelta + Seq::<WarnView>::empty() =~= wdelta);
    }
    Ok(out)
}

/// One unit of pending work: a whole byte stream to dispatch, or one
/// archive entry still to be read out of its archive's bytes.
pub enum Job {
    Blob { path: String, data: Vec<u8> },
    Entry { path: String, zip: Vec<u8>, index: usize },
}

/// The ghost image of a pending unit of work.
pub ghost enum JobView {
    Blob(Seq<char>, Seq<u8>),
    Entry(Seq<char>, Seq<u8>, int),
}

impl View for Job {
    type V = JobView;

    open spec fn view(&self) -> JobView {
        match self {
            Job::Blob { path, data } => JobView::Blob(path@, data@),
            Job::Entry { path, zip, index } => JobView::Entry(path@, zip@, *index as int),
        }
    }
}

/// The pending jobs of a worklist, next job first (the worklist is a
/// stack, so the last element is due next).
pub open spec fn rev_jobs(s: Seq<Job>) -> Seq<JobView> {
    Seq::new(s.len(), |i: int| s[s.len() - 1 - i]@)
}

/// One entry of the well-formedness of a job list: an entry job only
/// names an entry its archive really has.
pub open spec fn jobs_ok_at(jobs: Seq<JobView>, k: int) -> bool {
    jobs[k] matches JobView::Entry(p, zb, i) ==> zip_names(zb) matches Some(ns) && 0 <= i
        < ns.len()
}

/// Entry jobs only name entries their archives really have.
pub open spec fn jobs_ok(jobs: Seq<JobView>) -> bool {
    forall|k: int| 0 <= k < jobs.len() ==> #[trigger] jobs_ok_at(jobs, k)
}

/// What a finished batch step yields: the first hard failure, or all
/// records and warnings in order.
pub ghost enum BatchStep {
    Fail(ErrView),
    Done(Seq<TxView>, Seq<WarnView>),
}

/// A step with earlier records and warnings folded in front.
pub open spec fn lift_step(txs0: Seq<TxView>, ws0: Seq<WarnView>, s: BatchStep) -> BatchStep {
    match s {
        BatchStep::Fail(e) => BatchStep::Fail(e),
        BatchStep::Done(t, w) => BatchStep::Done(txs0 + t, ws0 + w),
    }
}

/// Prepends one stream's records and warnings to the rest of the batch.
pub open spec fn cons_step(
    txs: Seq<TxView>,
    ws: Seq<WarnView>,
    rest: Option<BatchStep>,
) -> Option<BatchStep> {
    match rest {
        None => None,
        Some(s) => Some(lift_step(txs, ws, s)),
    }
}

/// The jobs an archive's entries become, in entry order.
pub open spec fn entry_jobs(p: Seq<char>, d: Seq<u8>, n: nat) -> Seq<JobView> {
    Seq::new(n, |i: int| JobView::Entry(p, d, i))
}

/// Orders the recursion: reading an entry turns it into a stream job
/// without consuming fuel, so entry jobs rank above stream jobs.
pub open spec fn head_rank(jobs: Seq<JobView>) -> int {
    if jobs.len() > 0 && jobs[0] is Entry {
        1
    } else {
        0
    }
}

/// Extracts all records from one byte stream (an archive to any nesting
/// depth, a document, or neither), appending the soft warnings raised on
/// the way.
pub fn process_bytes(path: &str, data: Vec<u8>, warnings: &mut Vec<Warning>) -> (r: Result<
    Vec<Transaction>,
    CamtError,
>)
    ensures
        r matches Ok(v) ==> exists|fuel: nat, ws: Seq<WarnView>|
            #![auto]
            jobs_spec(seq![JobView::Blob(path@, data@)], fuel) == Some(
                BatchStep::Done(tx_views(v@), ws),
            ) && warn_views(final(warnings)@) == warn_views(old(warnings)@) + ws,
        r matches Err(e) ==> (e is NestingTooDeep) || (exists|fuel: nat, ev: ErrView|
            #![auto]
            jobs_spec(seq![JobView::Blob(path@, data@)], fuel) == Some(BatchStep::Fail(ev))
                && e.corresponds(ev)),
        r matches Err(e) && e is NestingTooDeep ==> jobs_spec(
            seq![JobView::Blob(path@, data@)],
            usize::MAX as nat,
        ) is None,
{
    let ghost dv = data@;
    let mut stack: Vec<Job> = Vec::new();
    stack.push(Job::Blob { path: path.to_owned(), data });
    proof {
        assert(rev_jobs(stack@) =~= seq![JobView::Blob(path@, dv)]);
        assert forall|k: int| 0 <= k < rev_jobs(stack@).len() implies #[trigger] jobs_ok_at(
            rev_jobs(stack@),
            k,
        ) by {}
    }
    run_jobs(stack, warnings)
}

/// The pending jobs a batch of already-read files becomes, in input order.
pub open spec fn blob_jobs(files: Seq<(String, Vec<u8>)>) -> Seq<JobView> {
    Seq::new(files.len(), |i: int| JobView::Blob(files[i].0@, files[i].1@))
}

/// Extracts all records from a batch of already-read input files, in input
/// order with within-file document order kept; the first failing file
/// aborts the whole batch.
pub fn process_files(files: Vec<(String, Vec<u8>)>, warnings: &mut Vec<Warning>) -> (r: Result<
    Vec<Transaction>,
    CamtError,
>)
    ensures
        r matches Ok(v) ==> exists|fuel: nat, ws: Seq<WarnView>|
            #![auto]
            jobs_spec(blob_jobs(files@), fuel) == Some(BatchStep::Done(tx_views(v@), ws))
                && warn_views(final(warnings)@) == warn_views(old(warnings)@) + ws,
        r matches Err(e) ==> (e is NestingTooDeep) || (exists|fuel: nat, ev: ErrView|
            #![auto]
            jobs_spec(blob_jobs(files@), fuel) == Some(BatchStep::Fail(ev)) && e.corresponds(
                ev,
            )),
        r matches Err(e) && e is NestingTooDeep ==> jobs_spec(
            blob_jobs(files@),
            usize::MAX as nat,
        ) is None,
{
    let ghost f0 = files@;
    let mut files = files;
    let mut stack: Vec<Job> = Vec::new();
    proof {
        assert(files@ =~= f0.take(files@.len() as int));
        assert(rev_jobs(stack@) =~= blob_jobs(f0).skip(files@.len() as int));
    }
    loop
        invariant
            files@.len() <= f0.len(),
            files@ =~= f0.take(files@.len() as int),
            rev_jobs(stack@) =~= blob_jobs(f0).skip(files@.len() as int),
            jobs_ok(rev_jobs(stack@)),
        ensures
            files@.len() == 0,
            rev_jobs(stack@) =~= blob_jobs(f0),
            jobs_ok(rev_jobs(stack@)),
        decreases files@.len(),
    {
        let ghost before = rev_jobs(stack@);
        let ghost flen = files@.len() as int;
        let pair = match files.pop() {
            Some(p) => p,
            None => {
                proof {
                    assert(blob_jobs(f0).skip(0) =~= blob_jobs(f0));
                }
                break ;
            },
        };
        let (path, data) = pair;
        let blob = Job::Blob { path, data };
        let ghost bv = blob@;
        stack.push(blob);
        proof {
            assert(f0.take(flen)[flen - 1] == f0[flen - 1]);
            assert(bv == JobView::Blob(f0[flen - 1].0@, f0[flen - 1].1@));
            assert(rev_jobs(stack@) =~= seq![bv] + before);
            assert(rev_jobs(stack@) =~= blob_jobs(f0).skip(flen - 1));
            assert(files@ =~= f0.take(flen - 1));
            assert forall|k: int| 0 <= k < rev_jobs(stack@).len() implies #[trigger] jobs_ok_at(
                rev_jobs(stack@),
                k,
            ) by {
                if k > 0 {
                    assert(rev_jobs(stack@)[k] == before[k - 1]);
                    assert(jobs_ok_at(before, k - 1));
                }
            }
        }
    }
    run_jobs(stack, warnings)
}

/// The input paths whose pre-flight check failed, in input order.
pub open spec fn missing_of(paths: Seq<Seq<char>>, present: Seq<bool>) -> Seq<Seq<char>>
    decreases paths.len(),
{
    if paths.len() == 0 {
        Seq::empty()
    } else {
        (if !present[0] {
            seq![paths[0]]
        } else {
            Seq::empty()
        }) + missing_of(paths.drop_first(), present.drop_first())
    }
}

/// The pre-flight check: given each input path and whether it names an
/// existing regular file, fail naming exactly the offending paths, in
/// order, before any file is processed.
pub fn preflight(paths: &Vec<String>, present: &Vec<bool>) -> (r: Result<(), CamtError>)
    requires
        paths@.len() == present@.len(),
    ensures
        (r is Err) == (exists|i: int| 0 <= i < present@.len() && !present@[i]),
        r matches Err(e) ==> e.corresponds(
            ErrView::MissingFiles(missing_of(paths.deep_view(), present@)),
        ),
{
    let ghost pv = paths.deep_view();
    let mut missing: Vec<String> = Vec::new();
    let mut i: usize = 0;
    proof {
        assert(pv.skip(0) =~= pv);
        assert(present@.skip(0) =~= present@);
        assert(missing.deep_view() =~= Seq::<Seq<char>>::empty());
        assert(Seq::<Seq<char>>::empty() + missing_of(pv, present@) =~= missing_of(pv, present@));
    }
    while i < paths.len()
        invariant
            i <= paths@.len(),
            paths@.len() == present@.len(),
            pv == paths.deep_view(),
            missing_of(pv, present@) == missing.deep_view() + missing_of(
                pv.skip(i as int),
                present@.skip(i as int),
            ),
            (missing@.len() > 0) == (exists|j: int| 0 <= j < i && !present@[j]),
        decreases paths@.len() - i,
    {
        proof {
            assert(pv.skip(i as int)[0] == pv[i as int]);
            assert(present@.skip(i as int)[0] == present@[i as int]);
            assert(pv.skip(i as int).drop_first() =~= pv.skip(i + 1));
            assert(present@.skip(i as int).drop_first() =~= present@.skip(i + 1));
        }
        if !present[i] {
            let ghost pre = missing.deep_view();
            missing.push(paths[i].clone());
            proof {
                assert(missing.deep_view() =~= pre + seq![pv[i as int]]);
                assert((pre + seq![pv[i as int]]) + missing_of(
                    pv.skip(i + 1),
                    present@.skip(i + 1),
                ) =~= pre + (seq![pv[i as int]] + missing_of(
                    pv.skip(i + 1),
                    present@.skip(i + 1),
                )));
            }
        } else {
            proof {
                assert(missing.deep_view() + missing_of(pv.skip(i + 1), present@.skip(i + 1)) =~=
                    missing.deep_view() + (Seq::<Seq<char>>::empty() + missing_of(
                    pv.skip(i + 1),
                    present@.skip(i + 1),
                )));
            }
        }
        i = i + 1;
    }
    proof {
        assert(pv.skip(paths@.len() as int) =~= Seq::<Seq<char>>::empty());
        assert(present@.skip(present@.len() as int) =~= Seq::<bool>::empty());
        assert(missing.deep_view() + Seq::<Seq<char>>::empty() =~= missing.deep_view());
    }
    if missing.len() > 0 {
        let err = CamtError::MissingFiles { files: missing };
        Err(err)
    } else {
        Ok(())
    }
}

/// Law: a container holding one entry that is itself a container holding
/// one entry yields exactly what the innermost bytes yield on their own;
/// the only difference is the synthesized display path.
pub proof fn lemma_nested_zip_equivalence(
    p: Seq<char>,
    outer: Seq<u8>,
    inner: Seq<u8>,
    leaf: Seq<u8>,
    n1: Seq<char>,
    n2: Seq<char>,
    fuel: nat,
)
    requires
        classify_spec(outer) == ContentKind::Archive,
        zip_names(outer) == Some(seq![n1]),
        zip_entry_data(outer, 0) == Some(inner),
        classify_spec(inner) == ContentKind::Archive,
        zip_names(inner) == Some(seq![n2]),
        zip_entry_data(inner, 0) == Some(leaf),
    ensures
        jobs_spec(seq![JobView::Blob(p, outer)], (fuel + 2) as nat) == jobs_spec(
            seq![JobView::Blob(p + "/"@ + n1 + "/"@ + n2, leaf)],
            fuel,
        ),
{
    let j0 = seq![JobView::Blob(p, outer)];
    let e1 = seq![JobView::Entry(p, outer, 0)];
    let b1 = seq![JobView::Blob(p + "/"@ + n1, inner)];
    let e2 = seq![JobView::Entry(p + "/"@ + n1, inner, 0)];
    let b2 = seq![JobView::Blob(p + "/"@ + n1 + "/"@ + n2, leaf)];
    assert(entry_jobs(p, outer, 1) + j0.drop_first() =~= e1);
    assert(jobs_spec(j0, (fuel + 2) as nat) == jobs_spec(e1, (fuel + 1) as nat));
    assert(seq![JobView::Blob(p + "/"@ + n1, inner)] + e1.drop_first() =~= b1);
    assert(jobs_spec(e1, (fuel + 1) as nat) == jobs_spec(b1, (fuel + 1) as nat));
    assert(entry_jobs(p + "/"@ + n1, inner, 1) + b1.drop_first() =~= e2);
    assert(jobs_spec(b1, (fuel + 1) as nat) == jobs_spec(e2, fuel));
    assert(seq![JobView::Blob(p + "/"@ + n1 + "/"@ + n2, leaf)] + e2.drop_first() =~= b2);
    assert(jobs_spec(e2, fuel) == jobs_spec(b2, fuel));
}

/// The warnings one document yields when it succeeds.
pub open spec fn doc_ws(path: Seq<char>, data: Seq<u8>) -> Seq<WarnView> {
    match doc_spec(path, data) {
        DocOutcome::Done(txs, ws) => ws,
        _ => Seq::empty(),
    }
}

/// What a list of pending streams yields, given enough `fuel` for the
/// archive nesting met on the way: `None` when the fuel ran out, otherwise
/// the first hard failure or all records and warnings, in order. Archives
/// expand into one job per entry; a recognized document contributes its
/// records; an unrecognized stream contributes one warning.
pub open spec fn jobs_spec(jobs: Seq<JobView>, fuel: nat) -> Option<BatchStep>
    decreases fuel, jobs.len(), head_rank(jobs),
{
    if jobs.len() == 0 {
        Some(BatchStep::Done(Seq::empty(), Seq::empty()))
    } else {
        match jobs[0] {
            JobView::Entry(p, zb, i) => {
                if zip_names(zb) is Some && 0 <= i < zip_names(zb).unwrap().len() {
                    let ns = zip_names(zb).unwrap();
                    match zip_entry_data(zb, i) {
                        None => Some(BatchStep::Fail(ErrView::ZipEntry(p, i))),
                        Some(d) => jobs_spec(
                            seq![JobView::Blob(p + "/"@ + ns[i], d)] + jobs.drop_first(),
                            fuel,
                        ),
                    }
                } else {
                    Some(BatchStep::Fail(ErrView::ZipEntry(p, i)))
                }
            },
            JobView::Blob(p, d) => match classify_spec(d) {
                ContentKind::Archive => match zip_names(d) {
                    None => Some(BatchStep::Fail(ErrView::ZipOpen(p))),
                    Some(ns) => if fuel == 0 {
                        None
                    } else {
                        jobs_spec(
                            entry_jobs(p, d, ns.len()) + jobs.drop_first(),
                            (fuel - 1) as nat,
                        )
                    },
                },
                ContentKind::Xml => match doc_spec(p, d) {
                    DocOutcome::BadXml => Some(BatchStep::Fail(ErrView::XmlParse(p))),
                    DocOutcome::Fail(f, ws) => Some(BatchStep::Fail(ErrView::Record(p, f))),
                    DocOutcome::Done(txs, ws) => cons_step(
                        txs,
                        ws,
                        jobs_spec(jobs.drop_first(), fuel),
                    ),
                },
                ContentKind::Unrecognized => cons_step(
                    Seq::empty(),
                    seq![WarnView::Unrecognized(p)],
                    jobs_spec(jobs.drop_first(), fuel),
                ),
            },
        }
    }
}

/// Runs a worklist of jobs to completion, appending warnings; the result
/// is what `jobs_spec` yields for the initial worklist at some sufficient
/// fuel, and the nesting ceiling fires only when even the largest fuel the
/// counter can hold is not enough.
#[verifier::rlimit(100)]
fn run_jobs(jobs: Vec<Job>, warnings: &mut Vec<Warning>) -> (r: Result<
    Vec<Transaction>,
    CamtError,
>)
    requires
        jobs_ok(rev_jobs(jobs@)),
    ensures
        r matches Ok(v) ==> exists|fuel: nat, ws: Seq<WarnView>|
            #![auto]
            jobs_spec(rev_jobs(jobs@), fuel) == Some(BatchStep::Done(tx_views(v@), ws))
                && warn_views(final(warnings)@) == warn_views(old(warnings)@) + ws,
        r matches Err(e) ==> (e is NestingTooDeep) || (exists|fuel: nat, ev: ErrView|
            #![auto]
            jobs_spec(rev_jobs(jobs@), fuel) == Some(BatchStep::Fail(ev)) && e.corresponds(ev)),
        r matches Err(e) && e is NestingTooDeep ==> jobs_spec(
            rev_jobs(jobs@),
            usize::MAX as nat,
        ) is None,
{
    let ghost jobs0 = rev_jobs(jobs@);
    let mut stack = jobs;
    let mut fuel: usize = usize::MAX;
    let mut out: Vec<Transaction> = Vec::new();
    let ghost mut spent: nat = 0;
    let ghost mut wdelta: Seq<WarnView> = Seq::empty();
    let ghost w0 = warn_views(warnings@);
    proof {
        assert(warn_views(warnings@) =~= w0 + wdelta);
        assert forall|f: nat| jobs_spec(jobs0, (f + spent) as nat) == cons_step(
            tx_views(out@),
            wdelta,
            #[trigger] jobs_spec(rev_jobs(stack@), f),
        ) by {
            match jobs_spec(rev_jobs(stack@), f) {
                None => {},
                Some(s) => {
                    match s {
                        BatchStep::Fail(e) => {},
                        BatchStep::Done(t, w) => {
                            assert(tx_views(out@) =~= Seq::<TxView>::empty());
                            assert(tx_views(out@) + t =~= t);
                            assert(wdelta + w =~= w);
                        },
                    }
                },
            }
        }
    }
    loop
        invariant
            jobs0 == rev_jobs(jobs@),
            jobs_ok(rev_jobs(stack@)),
            warn_views(warnings@) == w0 + wdelta,
            w0 == warn_views(old(warnings)@),
            spent + fuel == usize::MAX,
            forall|f: nat|
                jobs_spec(jobs0, (f + spent) as nat) == cons_step(
                    tx_views(out@),
                    wdelta,
                    #[trigger] jobs_spec(rev_jobs(stack@), f),
                ),
        ensures
            stack@.len() == 0,
            warn_views(warnings@) == w0 + wdelta,
            w0 == warn_views(old(warnings)@),
            forall|f: nat|
                jobs_spec(jobs0, (f + spent) as nat) == cons_step(
                    tx_views(out@),
                    wdelta,
                    #[trigger] jobs_spec(rev_jobs(stack@), f),
                ),
        decreases fuel, stack@.len(), head_rank(rev_jobs(stack@)),
    {
        let ghost pre_stack = stack@;
        let ghost jv_old = rev_jobs(stack@);
        let job = match stack.pop() {
            Some(j) => j,
            None => {
                break ;
            },
        };
        let ghost jv_new = rev_jobs(stack@);
        proof {
            assert(pre_stack =~= stack@.push(job));
            assert(jv_old =~= seq![job@] + jv_new);
            assert(jv_old.drop_first() =~= jv_new);
            assert(jv_old[0] == job@);
            assert forall|k: int| 0 <= k < jv_new.len() implies #[trigger] jobs_ok_at(
                jv_new,
                k,
            ) by {
                assert(jv_new[k] == jv_old[k + 1]);
                assert(jobs_ok_at(jv_old, k + 1));
            }
        }
        match job {
            Job::Blob { path, data } => {
                let kind = classify(&data);
                match kind {
                    ContentKind::Archive => {
                        let n = match zip_count(&data) {
                            Ok(n) => n,
                            Err(detail) => {
                                proof {
                                    assert(jobs_spec(jv_old, 0) == Some(
                                        BatchStep::Fail(ErrView::ZipOpen(path@)),
                                    ));
                                    assert(jobs_spec(jobs0, (0 + spent) as nat) == cons_step(
                                        tx_views(out@),
                                        wdelta,
                                        jobs_spec(jv_old, 0),
                                    ));
                                    assert(jobs_spec(jobs0, spent) == Some(
                                        BatchStep::Fail(ErrView::ZipOpen(path@)),
                                    ));
                                }
                                let ghost pv = path@;
                                let err = CamtError::ZipOpen { path, detail };
                                proof {
                                    assert(err.corresponds(ErrView::ZipOpen(pv)));
                                }
                                return Err(err);
                            },
                        };
                        if fuel == 0 {
                            proof {
                                assert(jobs_spec(jv_old, 0) is None);
                                assert(jobs_spec(jobs0, (0 + spent) as nat) == cons_step(
                                    tx_views(out@),
                                    wdelta,
                                    jobs_spec(jv_old, 0),
                                ));
                                assert(jobs_spec(jobs0, usize::MAX as nat) is None);
                            }
                            return Err(CamtError::NestingTooDeep { path });
                        }
                        fuel = fuel - 1;
                        let ghost ns = zip_names(data@).unwrap();
                        let mut k = n;
                        proof {
                            assert(entry_jobs(path@, data@, ns.len()).skip(n as int) + jv_new =~=
                                jv_new);
                            assert(rev_jobs(stack@) =~= entry_jobs(path@, data@, ns.len()).skip(
                                n as int,
                            ) + jv_new);
                        }
                        while k > 0
                            invariant
                                k <= n,
                                n == ns.len(),
                                ns == zip_names(data@).unwrap(),
                                zip_names(data@) is Some,
                                rev_jobs(stack@) =~= entry_jobs(path@, data@, ns.len()).skip(
                                    k as int,
                                ) + jv_new,
                                jobs_ok(jv_new),
                                jobs_ok(rev_jobs(stack@)),
                            decreases k,
                        {
                            k = k - 1;
                            let ghost before = rev_jobs(stack@);
                            let entry_job = Job::Entry {
                                path: path.clone(),
                                zip: clone_bytes(&data),
                                index: k,
                            };
                            proof {
                                assert(entry_job@ == JobView::Entry(path@, data@, k as int));
                            }
                            stack.push(entry_job);
                            proof {
                                assert(rev_jobs(stack@) =~= seq![
                                    JobView::Entry(path@, data@, k as int),
                                ] + before);
                                assert(rev_jobs(stack@) =~= entry_jobs(
                                    path@,
                                    data@,
                                    ns.len(),
                                ).skip(k as int) + jv_new);
                                assert forall|q: int| 0 <= q < rev_jobs(stack@).len() implies
                                    #[trigger] jobs_ok_at(rev_jobs(stack@), q) by {
                                    if q == 0 {
                                        assert(rev_jobs(stack@)[0] == JobView::Entry(
                                            path@,
                                            data@,
                                            k as int,
                                        ));
                                    } else {
                                        assert(rev_jobs(stack@)[q] == before[q - 1]);
                                        assert(jobs_ok_at(before, q - 1));
                                    }
                                }
                            }
                        }
                        proof {
                            let full = entry_jobs(path@, data@, ns.len());
                            assert(full.skip(0) =~= full);
                            let jv_arch = rev_jobs(stack@);
                            assert(jv_arch =~= full + jv_new);
                            let old_spent = spent;
                            spent = spent + 1;
                            assert forall|f: nat| jobs_spec(jobs0, (f + spent) as nat)
                                == cons_step(
                                tx_views(out@),
                                wdelta,
                                #[trigger] jobs_spec(jv_arch, f),
                            ) by {
                                assert(jobs_spec(jv_old, (f + 1) as nat) == jobs_spec(
                                    jv_arch,
                                    f,
                                ));
                                assert(jobs_spec(jobs0, ((f + 1) + old_spent) as nat) == cons_step(
                                    tx_views(out@),
                                    wdelta,
                                    jobs_spec(jv_old, (f + 1) as nat),
                                ));
                            }
                        }
                    },
                    ContentKind::Xml => {
                        match process_xml(path.as_str(), &data, warnings) {
                            Ok(mut v) => {
                                let ghost txs = tx_views(v@);
                                let ghost ws = doc_ws(path@, data@);
                                let ghost pre_out = tx_views(out@);
                                let ghost pre_w = wdelta;
                                out.append(&mut v);
                                proof {
                                    wdelta = pre_w + ws;
                                    assert(tx_views(out@) =~= pre_out + txs);
                                    assert(warn_views(warnings@) =~= w0 + wdelta);
                                    assert forall|f: nat| jobs_spec(jobs0, (f + spent) as nat)
                                        == cons_step(
                                        tx_views(out@),
                                        wdelta,
                                        #[trigger] jobs_spec(jv_new, f),
                                    ) by {
                                        assert(jobs_spec(jv_old, f) == cons_step(
                                            txs,
                                            ws,
                                            jobs_spec(jv_new, f),
                                        ));
                                        assert(jobs_spec(jobs0, (f + spent) as nat) == cons_step(
                                            pre_out,
                                            pre_w,
                                            jobs_spec(jv_old, f),
                                        ));
                                        match jobs_spec(jv_new, f) {
                                            None => {},
                                            Some(s) => {
                                                match s {
                                                    BatchStep::Fail(e) => {},
                                                    BatchStep::Done(t2, w2) => {
                                                        assert((pre_out + (txs + t2)) =~= ((
                                                        pre_out + txs) + t2));
                                                        assert((pre_w + (ws + w2)) =~= ((pre_w
                                                            + ws) + w2));
                                                    },
                                                }
                                            },
                                        }
                                    }
                                }
                            },
                            Err(e) => {
                                proof {
                                    match doc_spec(path@, data@) {
                                        DocOutcome::BadXml => {
                                            assert(jobs_spec(jv_old, 0) == Some(
                                                BatchStep::Fail(ErrView::XmlParse(path@)),
                                            ));
                                            assert(jobs_spec(jobs0, (0 + spent) as nat)
                                                == cons_step(
                                                tx_views(out@),
                                                wdelta,
                                                jobs_spec(jv_old, 0),
                                            ));
                                            assert(jobs_spec(jobs0, spent) == Some(
                                                BatchStep::Fail(ErrView::XmlParse(path@)),
                                            ));
                                        },
                                        DocOutcome::Fail(f, ws) => {
                                            assert(jobs_spec(jv_old, 0) == Some(
                                                BatchStep::Fail(ErrView::Record(path@, f)),
                                            ));
                                            assert(jobs_spec(jobs0, (0 + spent) as nat)
                                                == cons_step(
                                                tx_views(out@),
                                                wdelta,
                                                jobs_spec(jv_old, 0),
                                            ));
                                            assert(jobs_spec(jobs0, spent) == Some(
                                                BatchStep::Fail(ErrView::Record(path@, f)),
                                            ));
                                        },
                                        DocOutcome::Done(txs, ws) => {
                                            assert(false);
                                        },
                                    }
                                }
                                return Err(e);
                            },
                        }
                    },
                    ContentKind::Unrecognized => {
                        let ghost pv = path@;
                        let ghost pre_w = wdelta;
                        let ghost wprev = warnings@;
                        let warn = Warning::Unrecognized { path };
                        let ghost wv = warn@;
                        proof {
                            assert(wv == WarnView::Unrecognized(pv));
                        }
                        warnings.push(warn);
                        proof {
                            let ws = seq![WarnView::Unrecognized(pv)];
                            wdelta = pre_w + ws;
                            assert(warnings@ =~= wprev.push(warn));
                            assert(warn_views(warnings@) =~= warn_views(wprev).push(wv));
                            assert(warn_views(warnings@) =~= w0 + wdelta);
                            assert forall|f: nat| jobs_spec(jobs0, (f + spent) as nat)
                                == cons_step(
                                tx_views(out@),
                                wdelta,
                                #[trigger] jobs_spec(jv_new, f),
                            ) by {
                                assert(jobs_spec(jv_old, f) == cons_step(
                                    Seq::empty(),
                                    ws,
                                    jobs_spec(jv_new, f),
                                ));
                                assert(jobs_spec(jobs0, (f + spent) as nat) == cons_step(
                                    tx_views(out@),
                                    pre_w,
                                    jobs_spec(jv_old, f),
                                ));
                                match jobs_spec(jv_new, f) {
                                    None => {},
                                    Some(s) => {
                                        match s {
                                            BatchStep::Fail(e) => {},
                                            BatchStep::Done(t2, w2) => {
                                                assert((tx_views(out@) + (Seq::<TxView>::empty()
                                                    + t2)) =~= (tx_views(out@) + t2));
                                                assert((Seq::<TxView>::empty() + t2) =~= t2);
                                                assert((pre_w + (ws + w2)) =~= ((pre_w + ws)
                                                    + w2));
                                            },
                                        }
                                    },
                                }
                            }
                        }
                    },
                }
            },
            Job::Entry { path, zip, index } => {
                proof {
                    assert(jobs_ok_at(jv_old, 0));
                }
                match zip_entry(&zip, index) {
                    Ok(pair) => {
                        let (name, bytes) = pair;
                        let child = path_join(path.as_str(), name.as_str());
                        let ghost before = rev_jobs(stack@);
                        let blob = Job::Blob { path: child, data: bytes };
                        let ghost bv = blob@;
                        stack.push(blob);
                        proof {
                            assert(rev_jobs(stack@) =~= seq![bv] + before);
                            let ns = zip_names(zip@).unwrap();
                            assert(bv == JobView::Blob(
                                path@ + "/"@ + ns[index as int],
                                zip_entry_data(zip@, index as int).unwrap(),
                            ));
                            assert forall|q: int| 0 <= q < rev_jobs(stack@).len() implies
                                #[trigger] jobs_ok_at(rev_jobs(stack@), q) by {
                                if q > 0 {
                                    assert(rev_jobs(stack@)[q] == before[q - 1]);
                                    assert(jobs_ok_at(before, q - 1));
                                }
                            }
                            assert forall|f: nat| jobs_spec(jobs0, (f + spent) as nat)
                                == cons_step(
                                tx_views(out@),
                                wdelta,
                                #[trigger] jobs_spec(rev_jobs(stack@), f),
                            ) by {
                                assert(rev_jobs(stack@) =~= seq![bv] + jv_new);
                                assert(jobs_spec(jv_old, f) == jobs_spec(seq![bv] + jv_new, f));
                                assert(jobs_spec(jobs0, (f + spent) as nat) == cons_step(
                                    tx_views(out@),
                                    wdelta,
                                    jobs_spec(jv_old, f),
                                ));
                            }
                        }
                    },
                    Err(detail) => {
                        proof {
                            assert(jobs_spec(jv_old, 0) == Some(
                                BatchStep::Fail(ErrView::ZipEntry(path@, index as int)),
                            ));
                            assert(jobs_spec(jobs0, (0 + spent) as nat) == cons_step(
                                tx_views(out@),
                                wdelta,
                                jobs_spec(jv_old, 0),
                            ));
                            assert(jobs_spec(jobs0, spent) == Some(
                                BatchStep::Fail(ErrView::ZipEntry(path@, index as int)),
                            ));
                        }
                        let ghost pv = path@;
                        let err = CamtError::ZipEntry { path, index, detail };
                        proof {
                            assert(err.corresponds(ErrView::ZipEntry(pv, index as int)));
                        }
                        return Err(err);
                    },
                }
            },
        }
    }
    proof {
        assert(rev_jobs(stack@) =~= Seq::<JobView>::empty());
        assert(jobs_spec(rev_jobs(stack@), 0) == Some(
            BatchStep::Done(Seq::<TxView>::empty(), Seq::<WarnView>::empty()),
        ));
        assert(jobs_spec(jobs0, (0 + spent) as nat) == cons_step(
            tx_views(out@),
            wdelta,
            jobs_spec(rev_jobs(stack@), 0),
        ));
        assert(jobs_spec(jobs0, spent) == Some(
            lift_step(
                tx_views(out@),
                wdelta,
                BatchStep::Done(Seq::<TxView>::empty(), Seq::<WarnView>::empty()),
            ),
        ));
        assert(tx_views(out@) + Seq::<TxView>::empty() =~= tx_views(out@));
        assert(wdelta + Seq::<WarnView>::empty() =~= wdelta);
    }
    Ok(out)
}

} // verus!