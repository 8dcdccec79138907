//! The five-stage indexing pipeline and its single-threaded reference path.
//!
//! Both paths do the same logical work — read, index, accumulate with
//! threshold-triggered spilling, write segments, merge — and both are pinned
//! to the same mathematical result: the merged corpus index of the documents
//! that were read successfully.  The runtime driver performs the file reads
//! and hands their outcomes in as plain values; per-item read and write
//! failures travel on the error side-channel while the pipeline continues.

use vstd::prelude::*;

use crate::index::InMemoryIndex;
use crate::index::IndexModel;
use crate::index::doc_index_model;
use crate::index::empty_index_model;
use crate::index::index_combine;
use crate::index::index_is_large;
use crate::index::lemma_index_combine_assoc;
use crate::index::lemma_index_combine_identity;
use crate::off_thread_ext::ConditionAccmulatorExt;
use crate::off_thread_ext::ErrorSink;
use crate::off_thread_ext::ErrorsTo;
use crate::off_thread_ext::OffThreadExt;
use crate::off_thread_ext::Reducer;
use crate::off_thread_ext::combine_assoc;
use crate::off_thread_ext::combine_identity;
use crate::off_thread_ext::fold_combine;
use crate::off_thread_ext::items_inv;
use crate::off_thread_ext::lemma_all_ok;
use crate::off_thread_ext::lemma_emitted_fold;
use crate::off_thread_ext::lemma_fold_combine_push;
use crate::off_thread_ext::models;
use crate::off_thread_ext::result_errs;
use crate::off_thread_ext::result_oks;

verus! {

/// A failure, tagged with enough context to log usefully.  `ReadFailed` and
/// `MissingSegment` are recoverable per-item failures; `MissingPath` is fatal
/// to the whole run; `WrongMessage` marks a message of the wrong shape
/// reaching a stage, which signals a wiring bug rather than bad input.
#[derive(Debug)]
pub enum IndexError {
    ReadFailed(String),
    MissingPath(String),
    MissingSegment(usize),
    WrongMessage,
}

/// The payload flowing between pipeline stages: raw document text early on,
/// a segment handle after the write stage.
pub enum Message {
    Text(Vec<u8>),
    FilePath(usize),
}

/// Folding per-document indexes left to right.
pub open spec fn ifold(acc: IndexModel, ms: Seq<IndexModel>) -> IndexModel
    decreases ms.len(),
{
    if ms.len() == 0 {
        acc
    } else {
        index_combine(ifold(acc, ms.drop_last()), ms.last())
    }
}

/// The per-document index models of a list of texts, document ids by
/// position.
pub open spec fn doc_models(texts: Seq<Seq<u8>>) -> Seq<IndexModel>
    decreases texts.len(),
{
    if texts.len() == 0 {
        Seq::empty()
    } else {
        doc_models(texts.drop_last()).push(
            doc_index_model((texts.len() - 1) as usize, texts.last()),
        )
    }
}

/// The index of a whole corpus: all per-document indexes merged, in order.
pub open spec fn corpus_model(texts: Seq<Seq<u8>>) -> IndexModel {
    ifold(empty_index_model(), doc_models(texts))
}

/// The texts of the documents that were read successfully, in order.
pub open spec fn doc_texts(docs: Seq<Result<Vec<u8>, IndexError>>) -> Seq<Seq<u8>>
    decreases docs.len(),
{
    if docs.len() == 0 {
        Seq::empty()
    } else {
        let rest = doc_texts(docs.drop_last());
        match docs.last() {
            Ok(t) => rest.push(t@),
            Err(_) => rest,
        }
    }
}

pub proof fn lemma_doc_models_index(texts: Seq<Seq<u8>>)
    ensures
        doc_models(texts).len() == texts.len(),
        forall|j: int|
            0 <= j < texts.len() ==> doc_models(texts)[j] == doc_index_model(
                j as usize,
                texts[j],
            ),
    decreases texts.len(),
{
    if texts.len() > 0 {
        lemma_doc_models_index(texts.drop_last());
    }
}

/// The reducer the accumulate stage runs: merge each per-document index into
/// the running accumulator and emit-and-reset exactly when it grows large.
pub struct MergeReducer {
    pub threshold: usize,
}

impl Reducer<InMemoryIndex> for MergeReducer {
    type Model = IndexModel;

    open spec fn model_of(&self, t: InMemoryIndex) -> IndexModel {
        t.model()
    }

    open spec fn inv(&self, t: InMemoryIndex) -> bool {
        t.wf()
    }

    open spec fn combine(&self, a: IndexModel, b: IndexModel) -> IndexModel {
        index_combine(a, b)
    }

    open spec fn fires(&self, m: IndexModel) -> bool {
        index_is_large(m, self.threshold)
    }

    open spec fn empty_model(&self) -> IndexModel {
        empty_index_model()
    }

    fn fresh(&self) -> (t: InMemoryIndex) {
        InMemoryIndex::new()
    }

    fn step(&self, acc: &mut InMemoryIndex, item: InMemoryIndex) -> (r: Option<InMemoryIndex>) {
        make_in_memory_merge(acc, item, self.threshold)
    }
}

/// Merging indexes is associative, and an empty index is its identity.
pub proof fn lemma_merge_reducer_laws(rd: MergeReducer)
    ensures
        combine_assoc(rd),
        combine_identity(rd),
{
    assert forall|a: IndexModel, b: IndexModel, c: IndexModel|
        #[trigger] rd.combine(rd.combine(a, b), c) == rd.combine(a, rd.combine(b, c)) by {
        lemma_index_combine_assoc(a, b, c);
    }
    assert forall|m: IndexModel| #[trigger] rd.combine(rd.empty_model(), m) == m by {
        lemma_index_combine_identity(m);
    }
    assert forall|m: IndexModel| #[trigger] rd.combine(m, rd.empty_model()) == m by {
        lemma_index_combine_identity(m);
    }
}

/// Folding from the left equals folding from the right over the same items.
pub proof fn lemma_fold_is_ifold(rd: MergeReducer, acc: IndexModel, ms: Seq<IndexModel>)
    ensures
        fold_combine(rd, acc, ms) == ifold(acc, ms),
    decreases ms.len(),
{
    if ms.len() > 0 {
        lemma_fold_is_ifold(rd, acc, ms.drop_last());
        lemma_fold_combine_push(rd, acc, ms.drop_last(), ms.last());
        assert(ms.drop_last().push(ms.last()) =~= ms);
    }
}

/// The accumulate-stage step: merge the next per-document index into the
/// accumulator; when the result is large, move it out and leave a fresh one.
pub fn make_in_memory_merge(
    acc: &mut InMemoryIndex,
    file_index: InMemoryIndex,
    threshold: usize,
) -> (r: Option<InMemoryIndex>)
    requires
        old(acc).wf(),
        file_index.wf(),
    ensures
        final(acc).wf(),
        ({
            let c = index_combine(old(acc).model(), file_index.model());
            if index_is_large(c, threshold) {
                r matches Some(v) && v.wf() && v.model() == c && final(acc).model()
                    == empty_index_model()
            } else {
                r is None && final(acc).model() == c
            }
        }),
{
    acc.merge(file_index);
    if acc.is_large(threshold) {
        let mut fresh_ix = InMemoryIndex::new();
        core::mem::swap(acc, &mut fresh_ix);
        Some(fresh_ix)
    } else {
        None
    }
}

/// Pair a text with its document id and build the per-document index.  Only
/// a text message may reach this stage; a segment handle here is a wiring
/// bug, reported as a defensive error.
pub fn make_single_file_index(doc_id: usize, message: Message) -> (r: Result<
    InMemoryIndex,
    IndexError,
>)
    ensures
        message matches Message::Text(t) ==> (r matches Ok(ix) && ix.wf() && ix.model()
            == doc_index_model(doc_id, t@)),
        message matches Message::FilePath(p) ==> (r matches Err(e) && e is WrongMessage),
{
    match message {
        Message::Text(t) => Ok(InMemoryIndex::from_single_document(doc_id, t)),
        Message::FilePath(_) => Err(IndexError::WrongMessage),
    }
}

/// A tool for generating unique temporary segment names under an output
/// directory; it also stands for the segment files themselves, holding each
/// written fragment under its handle.
pub struct TmpDir {
    output_dir: String,
    segments: Vec<InMemoryIndex>,
}

impl TmpDir {
    /// The contents of the written segments, by handle.
    pub closed spec fn segments_model(self) -> Seq<IndexModel> {
        Seq::new(self.segments@.len(), |i: int| self.segments@[i].model())
    }

    pub closed spec fn wf(self) -> bool {
        forall|i: int| 0 <= i < self.segments@.len() ==> (#[trigger] self.segments@[i]).wf()
    }

    pub fn new(output_dir: &String) -> (r: TmpDir)
        ensures
            r.wf(),
            r.segments_model() == Seq::<IndexModel>::empty(),
    {
        let r = TmpDir { output_dir: output_dir.clone(), segments: Vec::new() };
        proof {
            assert(r.segments_model() =~= Seq::<IndexModel>::empty());
        }
        r
    }

    /// Move a written segment out, leaving an empty one under its handle;
    /// an unknown handle is a recoverable error.
    fn take_segment(&mut self, id: usize) -> (r: Result<InMemoryIndex, IndexError>)
        requires
            old(self).wf(),
        ensures
            final(self).wf(),
            id < old(self).segments_model().len() ==> (r matches Ok(ix) && ix.wf() && ix.model()
                == old(self).segments_model()[id as int] && final(self).segments_model() == old(self).segments_model().update(id as int, empty_index_model())),
            id >= old(self).segments_model().len() ==> (r matches Err(
                IndexError::MissingSegment(segment),
            ) && segment == id && final(self).segments_model() == old(self).segments_model()),
    {
        if id < self.segments.len() {
            let seg = self.segments.remove(id);
            self.segments.insert(id, InMemoryIndex::new());
            proof {
                assert(final(self).segments_model() =~= old(self).segments_model().update(
                    id as int,
                    empty_index_model(),
                ));
            }
            Ok(seg)
        } else {
            Err(IndexError::MissingSegment(id))
        }
    }
}

/// Serialize a flushed fragment to a new uniquely-named temporary segment
/// under the collaborator's directory, returning its handle.
pub fn write_index_to_tmp_file(index: InMemoryIndex, tmp_dir: &mut TmpDir) -> (r: Result<
    usize,
    IndexError,
>)
    requires
        old(tmp_dir).wf(),
        index.wf(),
    ensures
        final(tmp_dir).wf(),
        (r matches Ok(id) && id == old(tmp_dir).segments_model().len() && final(tmp_dir).segments_model() == old(tmp_dir).segments_model().push(index.model())),
{
    let id = tmp_dir.segments.len();
    tmp_dir.segments.push(index);
    proof {
        assert(final(tmp_dir).segments_model() =~= old(tmp_dir).segments_model().push(
            index.model(),
        ));
    }
    Ok(id)
}

/// The merge collaborator: segment contents are folded in the order their
/// handles arrive, and `finish` yields the completed merged index.
pub struct FileMerge {
    output_dir: String,
    acc: InMemoryIndex,
}

impl FileMerge {
    pub closed spec fn model(self) -> IndexModel {
        self.acc.model()
    }

    pub closed spec fn wf(self) -> bool {
        self.acc.wf()
    }

    pub fn new(output_dir: &String) -> (r: FileMerge)
        ensures
            r.wf(),
            r.model() == empty_index_model(),
    {
        FileMerge { output_dir: output_dir.clone(), acc: InMemoryIndex::new() }
    }

    /// Merge one written segment into the accumulated result.
    pub fn add_file(&mut self, file: usize, tmp_dir: &mut TmpDir) -> (r: Result<(), IndexError>)
        requires
            old(self).wf(),
            old(tmp_dir).wf(),
        ensures
            final(self).wf(),
            final(tmp_dir).wf(),
            file < old(tmp_dir).segments_model().len() ==> (r is Ok && final(self).model()
                == index_combine(old(self).model(), old(tmp_dir).segments_model()[file as int])
                && final(tmp_dir).segments_model() == old(tmp_dir).segments_model().update(
                file as int,
                empty_index_model(),
            )),
            file >= old(tmp_dir).segments_model().len() ==> (r matches Err(
                IndexError::MissingSegment(segment),
            ) && segment == file && final(self).model() == old(self).model() && final(tmp_dir).segments_model() == old(tmp_dir).segments_model()),
    {
        match tmp_dir.take_segment(file) {
            Ok(seg) => {
                self.acc.merge(seg);
                Ok(())
            },
            Err(e) => Err(e),
        }
    }

    /// Complete the merge and hand back the full merged index.
    pub fn finish(self) -> (r: Result<InMemoryIndex, IndexError>)
        requires
            self.wf(),
        ensures
            (r matches Ok(ix) && ix.wf() && ix.model() == self.model()),
    {
        Ok(self.acc)
    }
}

/// The merge-stage fold step: a segment-handle message merges its segment
/// into the accumulated result; a text message here is a wiring bug.  An
/// already-failed fold is passed through.
pub fn make_merge_index_file(
    merge: Result<FileMerge, IndexError>,
    message: Message,
    tmp_dir: &mut TmpDir,
) -> (r: Result<FileMerge, IndexError>)
    requires
        old(tmp_dir).wf(),
        merge matches Ok(m) ==> m.wf(),
    ensures
        final(tmp_dir).wf(),
        message matches Message::Text(t) ==> (r matches Err(e) && e is WrongMessage && final(tmp_dir).segments_model() == old(tmp_dir).segments_model()),
        message matches Message::FilePath(file) ==> match merge {
            Ok(m) => {
                &&& file < old(tmp_dir).segments_model().len() ==> (r matches Ok(m2) && m2.wf()
                    && m2.model() == index_combine(
                    m.model(),
                    old(tmp_dir).segments_model()[file as int],
                ) && final(tmp_dir).segments_model() == old(tmp_dir).segments_model().update(
                    file as int,
                    empty_index_model(),
                ))
                &&& file >= old(tmp_dir).segments_model().len() ==> (r matches Err(
                    IndexError::MissingSegment(segment),
                ) && segment == file && final(tmp_dir).segments_model() == old(tmp_dir).segments_model())
            },
            Err(e) => (r matches Err(e2) && e2 == e && final(tmp_dir).segments_model() == old(tmp_dir).segments_model()),
        },
{
    match message {
        Message::FilePath(file) => {
            match merge {
                Ok(mut m) => {
                    match m.add_file(file, tmp_dir) {
                        Ok(_) => Ok(m),
                        Err(e) => Err(e),
                    }
                },
                Err(e) => Err(e),
            }
        },
        Message::Text(_) => Err(IndexError::WrongMessage),
    }
}


/// The read stage's output: each read outcome wrapped as a text message.
pub open spec fn text_messages(docs: Seq<Result<Vec<u8>, IndexError>>) -> Seq<
    Result<Message, IndexError>,
>
    decreases docs.len(),
{
    if docs.len() == 0 {
        Seq::empty()
    } else {
        text_messages(docs.drop_last()).push(
            match docs.last() {
                Ok(t) => Ok(Message::Text(t)),
                Err(e) => Err(e),
            },
        )
    }
}

/// The text messages that continue past the side-channel, in order.
pub open spec fn wrapped_texts(docs: Seq<Result<Vec<u8>, IndexError>>) -> Seq<Message>
    decreases docs.len(),
{
    if docs.len() == 0 {
        Seq::empty()
    } else {
        let rest = wrapped_texts(docs.drop_last());
        match docs.last() {
            Ok(t) => rest.push(Message::Text(t)),
            Err(_) => rest,
        }
    }
}

pub proof fn lemma_text_messages_parts(docs: Seq<Result<Vec<u8>, IndexError>>)
    ensures
        result_errs(text_messages(docs)) == result_errs(docs),
        result_oks(text_messages(docs)) == wrapped_texts(docs),
    decreases docs.len(),
{
    if docs.len() > 0 {
        lemma_text_messages_parts(docs.drop_last());
        assert(text_messages(docs).drop_last() =~= text_messages(docs.drop_last()));
    }
}

pub proof fn lemma_wrapped_texts_index(docs: Seq<Result<Vec<u8>, IndexError>>)
    ensures
        wrapped_texts(docs).len() == doc_texts(docs).len(),
        forall|j: int|
            0 <= j < wrapped_texts(docs).len() ==> ((#[trigger] wrapped_texts(docs)[j]) matches
                Message::Text(t) && t@ == doc_texts(docs)[j]),
    decreases docs.len(),
{
    if docs.len() > 0 {
        lemma_wrapped_texts_index(docs.drop_last());
    }
}

/// Run the five-stage pipeline over the documents' read outcomes: wrap reads
/// as messages, side-channel the failures, index each text, accumulate with
/// threshold-triggered spilling, write each flushed fragment to a segment,
/// and fold all segments into the final merged index.
///
/// The result is always the merged corpus index of the successfully read
/// documents, whatever the threshold; every read failure reaches the error
/// sink exactly once, in order.
pub fn run_pipeline(
    documents: Vec<Result<Vec<u8>, IndexError>>,
    output_dir: String,
    error_sender: &mut ErrorSink<IndexError>,
    threshold: usize,
) -> (r: Result<InMemoryIndex, IndexError>)
    ensures
        (r matches Ok(ix) && ix.wf() && ix.model() == corpus_model(doc_texts(documents@))),
        final(error_sender)@ == old(error_sender)@ + result_errs(documents@),
{
    let ghost docs0 = documents@;
    let ghost texts = doc_texts(docs0);
    let ghost sink0 = error_sender@;

    // Stage 1: each read outcome becomes a text message.
    let mut docs = documents;
    let dn: usize = docs.len();
    let mut stage_read: Vec<Result<Message, IndexError>> = Vec::new();
    let mut k: usize = 0;
    proof {
        assert(docs0.take(0) =~= Seq::<Result<Vec<u8>, IndexError>>::empty());
        assert(docs@ =~= docs0.skip(0));
    }
    while docs.len() > 0
        invariant
            dn as int == docs0.len(),
            k <= dn,
            docs@ == docs0.skip(k as int),
            stage_read@ == text_messages(docs0.take(k as int)),
        decreases docs@.len(),
    {
        let d = docs.remove(0);
        proof {
            assert(d == docs0[k as int]);
            assert(docs@ =~= docs0.skip(k as int + 1));
            assert(docs0.take(k as int + 1).drop_last() =~= docs0.take(k as int));
            assert(docs0.take(k as int + 1).last() == docs0[k as int]);
        }
        match d {
            Ok(t) => stage_read.push(Ok(Message::Text(t))),
            Err(e) => stage_read.push(Err(e)),
        }
        k = k + 1;
    }
    proof {
        assert(docs0.take(k as int) =~= docs0);
    }

    // Failed reads leave on the side-channel; the rest moves off thread.
    let msgs: Vec<Message> = stage_read.errors_to(error_sender);
    proof {
        lemma_text_messages_parts(docs0);
        lemma_wrapped_texts_index(docs0);
    }
    let msgs = msgs.off_thread();

    // Stage 2: pair each text with its document id and index it.
    let ghost wt = wrapped_texts(docs0);
    let mut msgs2 = msgs;
    let mn: usize = msgs2.len();
    let mut stage_index: Vec<Result<InMemoryIndex, IndexError>> = Vec::new();
    let mut i: usize = 0;
    proof {
        assert(msgs2@ =~= wt.skip(0));
    }
    while msgs2.len() > 0
        invariant
            mn as int == wt.len(),
            wt.len() == texts.len(),
            forall|j: int|
                0 <= j < wt.len() ==> ((#[trigger] wt[j]) matches Message::Text(t) && t@
                    == texts[j]),
            i <= mn,
            msgs2@ == wt.skip(i as int),
            stage_index@.len() == i as int,
            forall|j: int|
                0 <= j < i ==> ((#[trigger] stage_index@[j]) matches Ok(ix) && ix.wf()
                    && ix.model() == doc_index_model(j as usize, texts[j])),
        decreases msgs2@.len(),
    {
        let m = msgs2.remove(0);
        proof {
            assert(m == wt[i as int]);
            assert(msgs2@ =~= wt.skip(i as int + 1));
        }
        let ix = make_single_file_index(i, m);
        stage_index.push(ix);
        i = i + 1;
    }
    let ghost si = stage_index@;
    let stage_index = stage_index.off_thread();

    // Stage 2b: defensive failures would travel the side-channel too; here
    // every message was a text, so nothing is forwarded.
    let ghost sink_mid = error_sender@;
    let per_doc: Vec<InMemoryIndex> = stage_index.errors_to(error_sender);
    proof {
        lemma_all_ok::<InMemoryIndex, IndexError>(si);
        assert(error_sender@ =~= sink_mid);
        assert(sink_mid =~= sink0 + result_errs(docs0));
    }

    // Stage 3: threshold accumulation with the merge reducer.
    let rd = MergeReducer { threshold };
    proof {
        assert forall|j: int| 0 <= j < per_doc@.len() implies rd.inv(
            #[trigger] per_doc@[j],
        ) by {
            assert(si[j] is Ok);
            assert(per_doc@[j] == si[j]->Ok_0);
        }
        assert(items_inv(rd, per_doc@));
        lemma_doc_models_index(texts);
        assert forall|j: int| 0 <= j < per_doc@.len() implies models(rd, per_doc@)[j]
            == doc_models(texts)[j] by {
            assert(si[j] is Ok);
            assert(per_doc@[j] == si[j]->Ok_0);
            assert(doc_models(texts)[j] == doc_index_model(j as usize, texts[j]));
        }
        assert(models(rd, per_doc@) =~= doc_models(texts));
    }
    let accum = per_doc.condition_reduce(rd);
    let fragments: Vec<InMemoryIndex> = accum.collect_values();
    let ghost frag_models = models(rd, fragments@);
    let ghost frag_vals = fragments@;
    proof {
        lemma_merge_reducer_laws(rd);
        lemma_emitted_fold(rd, rd.empty_model(), doc_models(texts));
        lemma_fold_is_ifold(rd, rd.empty_model(), frag_models);
        lemma_fold_is_ifold(rd, rd.empty_model(), doc_models(texts));
        assert(ifold(empty_index_model(), frag_models) == corpus_model(texts));
    }
    let fragments = fragments.off_thread();

    // Stage 4: each flushed fragment is written to its own segment.
    let mut tmp_dir = TmpDir::new(&output_dir);
    let mut frags = fragments;
    let fnum: usize = frags.len();
    let mut stage_write: Vec<Result<Message, IndexError>> = Vec::new();
    let mut w: usize = 0;
    proof {
        assert(frags@ =~= frag_vals.skip(0));
        assert(tmp_dir.segments_model() =~= frag_models.take(0));
    }
    while frags.len() > 0
        invariant
            fnum as int == frag_models.len(),
            frag_models == models(rd, frag_vals),
            items_inv(rd, frag_vals),
            w <= fnum,
            frags@ == frag_vals.skip(w as int),
            tmp_dir.wf(),
            tmp_dir.segments_model() == frag_models.take(w as int),
            stage_write@.len() == w as int,
            forall|j: int|
                0 <= j < w ==> (#[trigger] stage_write@[j]) == Ok::<Message, IndexError>(
                    Message::FilePath(j as usize),
                ),
        decreases frags@.len(),
    {
        let f = frags.remove(0);
        proof {
            assert(f == frag_vals[w as int]);
            assert(rd.inv(frag_vals[w as int]));
            assert(frags@ =~= frag_vals.skip(w as int + 1));
        }
        let file = write_index_to_tmp_file(f, &mut tmp_dir);
        match file {
            Ok(id) => stage_write.push(Ok(Message::FilePath(id))),
            Err(e) => stage_write.push(Err(e)),
        }
        proof {
            assert(f.model() == frag_models[w as int]);
            assert(tmp_dir.segments_model() =~= frag_models.take(w as int + 1));
        }
        w = w + 1;
    }
    proof {
        assert(frag_models.take(w as int) =~= frag_models);
    }
    let ghost sw = stage_write@;
    let paths: Vec<Message> = stage_write.errors_to(error_sender);
    proof {
        lemma_all_ok::<Message, IndexError>(sw);
        assert(error_sender@ =~= sink_mid);
    }
    let paths = paths.off_thread();

    // Stage 5: fold the segment handles into the merge collaborator, on the
    // orchestrating thread.
    let ghost paths0 = paths@;
    proof {
        assert forall|j: int| 0 <= j < fnum implies (#[trigger] paths0[j]) == Message::FilePath(
            j as usize,
        ) by {
            assert(sw[j] == Ok::<Message, IndexError>(Message::FilePath(j as usize)));
            assert(paths0[j] == sw[j]->Ok_0);
        }
    }
    let merge0 = FileMerge::new(&output_dir);
    let mut m: Result<FileMerge, IndexError> = Ok(merge0);
    let mut paths_v = paths;
    let mut t: usize = 0;
    proof {
        assert(paths_v@ =~= paths0.skip(0));
        assert(frag_models.take(0) =~= Seq::<IndexModel>::empty());
    }
    while paths_v.len() > 0
        invariant
            fnum as int == frag_models.len(),
            paths0.len() == fnum as int,
            forall|j: int|
                0 <= j < fnum ==> (#[trigger] paths0[j]) == Message::FilePath(j as usize),
            t <= fnum,
            paths_v@ == paths0.skip(t as int),
            tmp_dir.wf(),
            tmp_dir.segments_model().len() == frag_models.len(),
            forall|j: int|
                t <= j < fnum ==> (#[trigger] tmp_dir.segments_model()[j]) == frag_models[j],
            (m matches Ok(fm) && fm.wf() && fm.model() == ifold(
                empty_index_model(),
                frag_models.take(t as int),
            )),
        decreases paths_v@.len(),
    {
        let msg = paths_v.remove(0);
        proof {
            assert(msg == paths0[t as int]);
            assert(paths_v@ =~= paths0.skip(t as int + 1));
            assert(tmp_dir.segments_model()[t as int] == frag_models[t as int]);
        }
        m = make_merge_index_file(m, msg, &mut tmp_dir);
        proof {
            assert(frag_models.take(t as int + 1).drop_last() =~= frag_models.take(t as int));
            assert(frag_models.take(t as int + 1).last() == frag_models[t as int]);
        }
        t = t + 1;
    }
    proof {
        assert(frag_models.take(t as int) =~= frag_models);
    }
    match m {
        Ok(fm) => {
            let out = fm.finish();
            proof {
                assert(texts == doc_texts(docs0));
            }
            out
        },
        Err(e) => Err(e),
    }
}


/// Every document in the set was read successfully.
pub open spec fn all_reads_ok(docs: Seq<Result<Vec<u8>, IndexError>>) -> bool {
    forall|i: int| 0 <= i < docs.len() ==> (#[trigger] docs[i]) is Ok
}

/// The first read failure in the set, if any.
pub open spec fn first_read_error(docs: Seq<Result<Vec<u8>, IndexError>>) -> IndexError
    decreases docs.len(),
{
    if docs.len() == 0 {
        IndexError::WrongMessage
    } else {
        match docs[0] {
            Err(e) => e,
            Ok(_) => first_read_error(docs.drop_first()),
        }
    }
}

proof fn lemma_first_error_at(docs: Seq<Result<Vec<u8>, IndexError>>, k: int)
    requires
        0 <= k < docs.len(),
        forall|j: int| 0 <= j < k ==> (#[trigger] docs[j]) is Ok,
        docs[k] is Err,
    ensures
        first_read_error(docs) == docs[k]->Err_0,
    decreases k,
{
    if k > 0 {
        assert(docs[0] is Ok);
        assert forall|j: int| 0 <= j < k - 1 implies (#[trigger] docs.drop_first()[j]) is Ok by {
            assert(docs.drop_first()[j] == docs[j + 1]);
        }
        assert(docs.drop_first()[k - 1] == docs[k]);
        lemma_first_error_at(docs.drop_first(), k - 1);
    }
}

/// The single-threaded reference path: the same read, index, accumulate,
/// spill and merge work, performed sequentially in one control flow.  On a
/// set whose reads all succeed it produces exactly the merged corpus index;
/// the first read failure aborts the run.
#[verifier::loop_isolation(false)]
pub fn run_single_threaded(
    documents: Vec<Result<Vec<u8>, IndexError>>,
    output_dir: String,
    threshold: usize,
) -> (r: Result<InMemoryIndex, IndexError>)
    ensures
        all_reads_ok(documents@) ==> (r matches Ok(ix) && ix.wf() && ix.model() == corpus_model(
            doc_texts(documents@),
        )),
        !all_reads_ok(documents@) ==> (r matches Err(e) && e == first_read_error(documents@)),
{
    let mut accumulated_index = InMemoryIndex::new();
    let mut merge = FileMerge::new(&output_dir);
    let mut tmp_dir = TmpDir::new(&output_dir);
    let ghost docs0 = documents@;
    let mut docs = documents;
    let dn: usize = docs.len();
    let mut doc_id: usize = 0;
    proof {
        assert(docs@ =~= docs0.skip(0));
        assert(docs0.take(0) =~= Seq::<Result<Vec<u8>, IndexError>>::empty());
        lemma_index_combine_identity(accumulated_index.model());
    }
    while docs.len() > 0
        invariant
            dn as int == docs0.len(),
            doc_id <= dn,
            docs@ == docs0.skip(doc_id as int),
            forall|j: int| 0 <= j < doc_id ==> (#[trigger] docs0[j]) is Ok,
            doc_texts(docs0.take(doc_id as int)).len() == doc_id as int,
            accumulated_index.wf(),
            merge.wf(),
            tmp_dir.wf(),
            index_combine(merge.model(), accumulated_index.model()) == ifold(
                empty_index_model(),
                doc_models(doc_texts(docs0.take(doc_id as int))),
            ),
        decreases docs@.len(),
    {
        let d = docs.remove(0);
        proof {
            assert(d == docs0[doc_id as int]);
            assert(docs@ =~= docs0.skip(doc_id as int + 1));
            assert(docs0.take(doc_id as int + 1).drop_last() =~= docs0.take(doc_id as int));
            assert(docs0.take(doc_id as int + 1).last() == docs0[doc_id as int]);
        }
        let text = match d {
            Ok(t) => t,
            Err(e) => {
                proof {
                    assert(docs0[doc_id as int] is Err);
                    assert(docs0[doc_id as int]->Err_0 == e);
                    lemma_first_error_at(docs0, doc_id as int);
                    assert(!all_reads_ok(docs0));
                    assert(first_read_error(docs0) == e);
                }
                return Err(e);
            },
        };
        let ghost pre_acc = accumulated_index.model();
        let ghost pre_merge = merge.model();
        let ghost tx = doc_texts(docs0.take(doc_id as int));
        let ghost tx1 = doc_texts(docs0.take(doc_id as int + 1));
        let index = InMemoryIndex::from_single_document(doc_id, text);
        accumulated_index.merge(index);
        proof {
            assert(tx1 == tx.push(text@));
            assert(tx1.drop_last() =~= tx);
            assert(tx1.last() == text@);
            assert(doc_models(tx1) == doc_models(tx).push(doc_index_model(doc_id, text@)));
            assert(doc_models(tx1).drop_last() =~= doc_models(tx));
            assert(ifold(empty_index_model(), doc_models(tx1)) == index_combine(
                ifold(empty_index_model(), doc_models(tx)),
                doc_index_model(doc_id, text@),
            ));
            lemma_index_combine_assoc(pre_merge, pre_acc, doc_index_model(doc_id, text@));
        }
        if accumulated_index.is_large(threshold) {
            let mut tmp = InMemoryIndex::new();
            core::mem::swap(&mut accumulated_index, &mut tmp);
            let ghost spilled = tmp.model();
            match write_index_to_tmp_file(tmp, &mut tmp_dir) {
                Ok(file) => {
                    match merge.add_file(file, &mut tmp_dir) {
                        Ok(_) => {
                            proof {
                                lemma_index_combine_identity(index_combine(pre_merge, spilled));
                            }
                        },
                        Err(e) => {
                            return Err(e);
                        },
                    }
                },
                Err(e) => {
                    return Err(e);
                },
            }
        }
        doc_id = doc_id + 1;
    }
    proof {
        assert(docs0.take(doc_id as int) =~= docs0);
        assert(all_reads_ok(docs0));
    }
    if !accumulated_index.is_empty() {
        let ghost pre_merge = merge.model();
        let mut tmp = InMemoryIndex::new();
        core::mem::swap(&mut accumulated_index, &mut tmp);
        let ghost spilled = tmp.model();
        match write_index_to_tmp_file(tmp, &mut tmp_dir) {
            Ok(file) => {
                match merge.add_file(file, &mut tmp_dir) {
                    Ok(_) => {},
                    Err(e) => {
                        return Err(e);
                    },
                }
            },
            Err(e) => {
                return Err(e);
            },
        }
    } else {
        proof {
            lemma_index_combine_identity(merge.model());
        }
    }
    merge.finish()
}

/// An entry of a directory listing, as the runtime driver observed it.
pub struct DirEntryInfo {
    pub path: String,
    pub is_file: bool,
}

/// What the filesystem said about one path argument.
pub enum PathInfo {
    Missing,
    File,
    Dir(Vec<DirEntryInfo>),
}

/// One path argument together with what the filesystem said about it.
pub struct ArgListing {
    pub path: String,
    pub info: PathInfo,
}

/// The files of one directory listing, in order.
pub open spec fn dir_files(es: Seq<DirEntryInfo>) -> Seq<Seq<char>>
    decreases es.len(),
{
    if es.len() == 0 {
        Seq::empty()
    } else {
        let rest = dir_files(es.drop_last());
        if es.last().is_file {
            rest.push(es.last().path@)
        } else {
            rest
        }
    }
}

/// The complete document list an argument list expands to: a file argument
/// stands for itself, a directory argument for its child files, in order.
pub open spec fn expanded_paths(args: Seq<ArgListing>) -> Seq<Seq<char>>
    decreases args.len(),
{
    if args.len() == 0 {
        Seq::empty()
    } else {
        expanded_paths(args.drop_last()) + (match args.last().info {
            PathInfo::Missing => Seq::<Seq<char>>::empty(),
            PathInfo::File => seq![args.last().path@],
            PathInfo::Dir(es) => dir_files(es@),
        })
    }
}

pub open spec fn args_ok(args: Seq<ArgListing>) -> bool {
    forall|i: int| 0 <= i < args.len() ==> !((#[trigger] args[i]).info is Missing)
}

pub open spec fn first_missing_path(args: Seq<ArgListing>) -> Seq<char>
    decreases args.len(),
{
    if args.len() == 0 {
        Seq::empty()
    } else if args[0].info is Missing {
        args[0].path@
    } else {
        first_missing_path(args.drop_first())
    }
}

pub open spec fn path_views(ps: Seq<String>) -> Seq<Seq<char>> {
    ps.map_values(|p: String| p@)
}

proof fn lemma_first_missing_at(args: Seq<ArgListing>, k: int)
    requires
        0 <= k < args.len(),
        forall|j: int| 0 <= j < k ==> !((#[trigger] args[j]).info is Missing),
        args[k].info is Missing,
    ensures
        first_missing_path(args) == args[k].path@,
    decreases k,
{
    if k > 0 {
        assert(!(args[0].info is Missing));
        assert forall|j: int| 0 <= j < k - 1 implies !((#[trigger] args.drop_first()[j]).info
            is Missing) by {
            assert(args.drop_first()[j] == args[j + 1]);
        }
        assert(args.drop_first()[k - 1] == args[k]);
        lemma_first_missing_at(args.drop_first(), k - 1);
    }
}

/// Expand the path arguments into the complete list of documents to index:
/// a file argument is used directly, a directory argument contributes its
/// immediate child files.  A missing path is a fatal error that aborts the
/// whole run before any pipeline work begins.
#[verifier::loop_isolation(false)]
pub fn expand_filename_arguments(args: Vec<ArgListing>) -> (r: Result<Vec<String>, IndexError>)
    ensures
        args_ok(args@) ==> (r matches Ok(v) && path_views(v@) == expanded_paths(args@)),
        !args_ok(args@) ==> (r matches Err(IndexError::MissingPath(p)) && p@ == first_missing_path(
            args@,
        )),
{
    let ghost args0 = args@;
    let mut rest = args;
    let an: usize = rest.len();
    let mut filenames: Vec<String> = Vec::new();
    let mut k: usize = 0;
    proof {
        assert(rest@ =~= args0.skip(0));
        assert(args0.take(0) =~= Seq::<ArgListing>::empty());
        assert(path_views(filenames@) =~= expanded_paths(args0.take(0)));
    }
    while rest.len() > 0
        invariant
            an as int == args0.len(),
            k <= an,
            rest@ == args0.skip(k as int),
            forall|j: int| 0 <= j < k ==> !((#[trigger] args0[j]).info is Missing),
            path_views(filenames@) == expanded_paths(args0.take(k as int)),
        decreases rest@.len(),
    {
        let arg = rest.remove(0);
        proof {
            assert(arg == args0[k as int]);
            assert(rest@ =~= args0.skip(k as int + 1));
            assert(args0.take(k as int + 1).drop_last() =~= args0.take(k as int));
            assert(args0.take(k as int + 1).last() == args0[k as int]);
        }
        let ghost pre = filenames@;
        match arg.info {
            PathInfo::Missing => {
                proof {
                    assert(args0[k as int].info is Missing);
                    lemma_first_missing_at(args0, k as int);
                    assert(!args_ok(args0));
                    assert(arg.path@ == first_missing_path(args0));
                }
                return Err(IndexError::MissingPath(arg.path));
            },
            PathInfo::File => {
                let ghost p = arg.path@;
                filenames.push(arg.path);
                proof {
                    assert(path_views(filenames@) =~= path_views(pre).push(p));
                    assert(expanded_paths(args0.take(k as int)) + seq![p] =~= expanded_paths(
                        args0.take(k as int),
                    ).push(p));
                }
            },
            PathInfo::Dir(entries) => {
                let mut es = entries;
                let ghost es0 = es@;
                let en: usize = es.len();
                let mut j2: usize = 0;
                proof {
                    assert(es@ =~= es0.skip(0));
                    assert(es0.take(0) =~= Seq::<DirEntryInfo>::empty());
                    assert(path_views(filenames@) + dir_files(es0.take(0)) =~= path_views(
                        filenames@,
                    ));
                }
                while es.len() > 0
                    invariant
                        en as int == es0.len(),
                        j2 <= en,
                        es@ == es0.skip(j2 as int),
                        path_views(filenames@) == path_views(pre) + dir_files(es0.take(j2 as int)),
                    decreases es@.len(),
                {
                    let entry = es.remove(0);
                    proof {
                        assert(entry == es0[j2 as int]);
                        assert(es@ =~= es0.skip(j2 as int + 1));
                        assert(es0.take(j2 as int + 1).drop_last() =~= es0.take(j2 as int));
                        assert(es0.take(j2 as int + 1).last() == es0[j2 as int]);
                    }
                    let ghost pre2 = filenames@;
                    let ghost ep = entry.path@;
                    if entry.is_file {
                        filenames.push(entry.path);
                        proof {
                            assert(path_views(filenames@) =~= path_views(pre2).push(ep));
                            assert(path_views(pre) + dir_files(es0.take(j2 as int + 1))
                                =~= (path_views(pre) + dir_files(es0.take(j2 as int))).push(ep));
                        }
                    }
                    j2 = j2 + 1;
                }
                proof {
                    assert(es0.take(j2 as int) =~= es0);
                }
            },
        }
        k = k + 1;
    }
    proof {
        assert(args0.take(k as int) =~= args0);
        assert(args_ok(args0));
    }
    Ok(filenames)
}

/// Generate an index for a set of documents: either serially on the calling
/// thread, or through the staged pipeline with the error side-channel.  The
/// second component of the result is the failure log the side-channel
/// consumer drains.
pub fn run(
    documents: Vec<Result<Vec<u8>, IndexError>>,
    single_threaded: bool,
    output_dir: String,
    threshold: usize,
) -> (r: (Result<InMemoryIndex, IndexError>, Vec<IndexError>))
    ensures
        single_threaded ==> ({
            &&& all_reads_ok(documents@) ==> (r.0 matches Ok(ix) && ix.wf() && ix.model()
                == corpus_model(doc_texts(documents@)))
            &&& !all_reads_ok(documents@) ==> (r.0 matches Err(e) && e == first_read_error(
                documents@,
            ))
            &&& r.1@ == Seq::<IndexError>::empty()
        }),
        !single_threaded ==> ({
            &&& (r.0 matches Ok(ix) && ix.wf() && ix.model() == corpus_model(
                doc_texts(documents@),
            ))
            &&& r.1@ == result_errs(documents@)
        }),
{
    if single_threaded {
        (run_single_threaded(documents, output_dir, threshold), Vec::new())
    } else {
        let ghost docs0 = documents@;
        let mut error_sender: ErrorSink<IndexError> = ErrorSink::new();
        let res = run_pipeline(documents, output_dir, &mut error_sender, threshold);
        let errors = error_sender.into_errors();
        proof {
            assert(Seq::<IndexError>::empty() + result_errs(docs0) =~= result_errs(docs0));
        }
        (res, errors)
    }
}

/// The single-threaded path and the pipelined path produce the same index
/// content.  Each path's contract pins its result to the merged corpus index
/// of the successfully read documents — a value that does not depend on the
/// spill threshold or on scheduling — so on a document set whose reads all
/// succeed, any two results meeting those contracts are equal.
pub proof fn lemma_paths_produce_equal_content(
    docs: Seq<Result<Vec<u8>, IndexError>>,
    single_result: IndexModel,
    pipeline_result: IndexModel,
)
    requires
        all_reads_ok(docs),
        single_result == corpus_model(doc_texts(docs)),
        pipeline_result == corpus_model(doc_texts(docs)),
    ensures
        single_result == pipeline_result,
{
}

} // verus!
