//! The in-memory inverted index: a mapping from term to the ordered list of
//! (document, word position) occurrences, with a merge operation and a size
//! predicate used to decide when a partial index should be spilled.

use vstd::prelude::*;

verus! {

/// One occurrence of a term: the document it occurred in and its word
/// position inside that document.
#[derive(Clone, Copy, PartialEq, Eq, Structural, Debug)]
pub struct Posting {
    pub doc: usize,
    pub pos: usize,
}

/// One group of postings recorded for a term.
pub struct TermEntry {
    pub term: Vec<u8>,
    pub postings: Vec<Posting>,
}

/// The mathematical content of an index: the term-to-postings mapping and the
/// total number of postings it holds.
#[verifier::ext_equal]
pub struct IndexModel {
    pub map: Map<Seq<u8>, Seq<Posting>>,
    pub words: nat,
}

/// The postings a map associates with a term; absent terms have none.
pub open spec fn map_postings(m: Map<Seq<u8>, Seq<Posting>>, k: Seq<u8>) -> Seq<Posting> {
    if m.contains_key(k) {
        m[k]
    } else {
        Seq::empty()
    }
}

/// Union of two term maps; postings of shared terms are concatenated, left
/// operand first, so document order is preserved.
pub open spec fn merge_maps(
    a: Map<Seq<u8>, Seq<Posting>>,
    b: Map<Seq<u8>, Seq<Posting>>,
) -> Map<Seq<u8>, Seq<Posting>> {
    Map::new(
        |k: Seq<u8>| a.contains_key(k) || b.contains_key(k),
        |k: Seq<u8>| map_postings(a, k) + map_postings(b, k),
    )
}

pub open spec fn empty_index_model() -> IndexModel {
    IndexModel { map: Map::empty(), words: 0 }
}

/// Combining two indexes merges their term maps and adds their sizes.
pub open spec fn index_combine(a: IndexModel, b: IndexModel) -> IndexModel {
    IndexModel { map: merge_maps(a.map, b.map), words: a.words + b.words }
}

/// A count clipped to what a machine word can hold.
pub open spec fn sat(n: nat) -> nat {
    if n > usize::MAX as nat {
        usize::MAX as nat
    } else {
        n
    }
}

/// The size predicate: an index is large once its (clipped) posting count
/// reaches the threshold.
pub open spec fn index_is_large(m: IndexModel, threshold: usize) -> bool {
    sat(m.words) >= threshold as nat
}

/// The term map denoted by a list of entries: entries are folded in order,
/// each appending its postings to whatever its term already holds.
pub open spec fn entries_map(es: Seq<TermEntry>) -> Map<Seq<u8>, Seq<Posting>>
    decreases es.len(),
{
    if es.len() == 0 {
        Map::empty()
    } else {
        let m = entries_map(es.drop_last());
        let e = es.last();
        m.insert(e.term@, map_postings(m, e.term@) + e.postings@)
    }
}

/// Total number of postings over a list of entries.
pub open spec fn total_postings(es: Seq<TermEntry>) -> nat
    decreases es.len(),
{
    if es.len() == 0 {
        0
    } else {
        total_postings(es.drop_last()) + es.last().postings@.len()
    }
}

pub proof fn lemma_index_combine_assoc(a: IndexModel, b: IndexModel, c: IndexModel)
    ensures
        index_combine(index_combine(a, b), c) == index_combine(a, index_combine(b, c)),
{
    assert(merge_maps(merge_maps(a.map, b.map), c.map) =~~= merge_maps(
        a.map,
        merge_maps(b.map, c.map),
    ));
    assert(index_combine(index_combine(a, b), c) =~= index_combine(a, index_combine(b, c)));
}

pub proof fn lemma_index_combine_identity(m: IndexModel)
    ensures
        index_combine(empty_index_model(), m) == m,
        index_combine(m, empty_index_model()) == m,
{
    assert(merge_maps(Map::empty(), m.map) =~~= m.map);
    assert(merge_maps(m.map, Map::empty()) =~~= m.map);
    assert(index_combine(empty_index_model(), m) =~= m);
    assert(index_combine(m, empty_index_model()) =~= m);
}

pub proof fn lemma_total_postings_concat(a: Seq<TermEntry>, b: Seq<TermEntry>)
    ensures
        total_postings(a + b) == total_postings(a) + total_postings(b),
    decreases b.len(),
{
    if b.len() == 0 {
        assert(a + b =~= a);
    } else {
        lemma_total_postings_concat(a, b.drop_last());
        assert((a + b).drop_last() =~= a + b.drop_last());
        assert((a + b).last() == b.last());
    }
}

pub proof fn lemma_entries_map_concat(a: Seq<TermEntry>, b: Seq<TermEntry>)
    ensures
        entries_map(a + b) == merge_maps(entries_map(a), entries_map(b)),
    decreases b.len(),
{
    if b.len() == 0 {
        assert(a + b =~= a);
        assert(merge_maps(entries_map(a), entries_map(b)) =~~= entries_map(a));
    } else {
        lemma_entries_map_concat(a, b.drop_last());
        assert((a + b).drop_last() =~= a + b.drop_last());
        assert((a + b).last() == b.last());
        let t = b.last().term@;
        let p = b.last().postings@;
        let ma = entries_map(a);
        let mbd = entries_map(b.drop_last());
        assert(entries_map(a + b) == merge_maps(ma, mbd).insert(
            t,
            map_postings(merge_maps(ma, mbd), t) + p,
        ));
        assert(merge_maps(ma, mbd).insert(t, map_postings(merge_maps(ma, mbd), t) + p)
            =~~= merge_maps(ma, mbd.insert(t, map_postings(mbd, t) + p)));
    }
}

/// Whether a byte belongs to a word.  Words are maximal runs of bytes that
/// are not ASCII whitespace.
pub open spec fn is_word_byte(b: u8) -> bool {
    b != 32 && b != 9 && b != 10 && b != 13
}

/// The words of `s`, given that the bytes of a partial word `cur` have
/// already been read.  A scan from the left: word bytes extend the current
/// word, whitespace closes it.
pub open spec fn tokens_acc(s: Seq<u8>, cur: Seq<u8>) -> Seq<Seq<u8>>
    decreases s.len(),
{
    if s.len() == 0 {
        if cur.len() == 0 {
            Seq::empty()
        } else {
            seq![cur]
        }
    } else if is_word_byte(s[0]) {
        tokens_acc(s.drop_first(), cur.push(s[0]))
    } else if cur.len() == 0 {
        tokens_acc(s.drop_first(), cur)
    } else {
        seq![cur] + tokens_acc(s.drop_first(), Seq::empty())
    }
}

/// The words of a document's text, in reading order.
pub open spec fn tokens(s: Seq<u8>) -> Seq<Seq<u8>> {
    tokens_acc(s, Seq::empty())
}

/// The term map of a single document: word number `i` of document `d`
/// contributes the posting `(d, i)` to its term.
pub open spec fn doc_map(d: usize, toks: Seq<Seq<u8>>) -> Map<Seq<u8>, Seq<Posting>>
    decreases toks.len(),
{
    if toks.len() == 0 {
        Map::empty()
    } else {
        let m = doc_map(d, toks.drop_last());
        let t = toks.last();
        m.insert(t, map_postings(m, t).push(Posting { doc: d, pos: (toks.len() - 1) as usize }))
    }
}

/// The full model of the index of one document.
pub open spec fn doc_index_model(d: usize, text: Seq<u8>) -> IndexModel {
    IndexModel { map: doc_map(d, tokens(text)), words: tokens(text).len() }
}

pub proof fn lemma_entries_map_key_of_entry(es: Seq<TermEntry>, i: int)
    requires
        0 <= i < es.len(),
    ensures
        entries_map(es).contains_key(es[i].term@),
    decreases es.len(),
{
    if i < es.len() - 1 {
        lemma_entries_map_key_of_entry(es.drop_last(), i);
        assert(es.drop_last()[i] == es[i]);
    }
}

pub proof fn lemma_entries_map_key_listed(es: Seq<TermEntry>, k: Seq<u8>) -> (i: int)
    requires
        entries_map(es).contains_key(k),
    ensures
        0 <= i < es.len() && es[i].term@ == k,
    decreases es.len(),
{
    if es.len() == 0 {
        0
    } else if es.last().term@ == k {
        es.len() - 1
    } else {
        let i = lemma_entries_map_key_listed(es.drop_last(), k);
        assert(es.drop_last()[i] == es[i]);
        i
    }
}

/// Byte-for-byte equality of two terms.
pub fn bytes_eq(a: &Vec<u8>, b: &Vec<u8>) -> (r: bool)
    ensures
        r == (a@ == b@),
{
    if a.len() != b.len() {
        return false;
    }
    let mut i: usize = 0;
    while i < a.len()
        invariant
            a@.len() == b@.len(),
            i <= a@.len(),
            forall|j: int| 0 <= j < i ==> a@[j] == b@[j],
        decreases a@.len() - i,
    {
        if a[i] != b[i] {
            return false;
        }
        i = i + 1;
    }
    proof {
        assert(a@ =~= b@);
    }
    true
}

/// An in-memory inverted index fragment.  The posting counter mirrors the
/// entries so that the size predicate is a single comparison.
pub struct InMemoryIndex {
    entries: Vec<TermEntry>,
    words: usize,
}

impl InMemoryIndex {
    /// The mathematical value of this index.
    pub closed spec fn model(self) -> IndexModel {
        IndexModel { map: entries_map(self.entries@), words: total_postings(self.entries@) }
    }

    /// Internal consistency: the counter equals the (clipped) posting total.
    pub closed spec fn wf(self) -> bool {
        self.words as nat == sat(total_postings(self.entries@))
    }

    pub fn new() -> (r: InMemoryIndex)
        ensures
            r.wf(),
            r.model() == empty_index_model(),
    {
        let r = InMemoryIndex { entries: Vec::new(), words: 0 };
        proof {
            assert(r.model() =~= empty_index_model());
        }
        r
    }

    /// Combine another fragment into this one.  Postings for shared terms are
    /// concatenated, this fragment's first, so document order is preserved.
    pub fn merge(&mut self, other: InMemoryIndex)
        requires
            old(self).wf(),
            other.wf(),
        ensures
            final(self).wf(),
            final(self).model() == index_combine(old(self).model(), other.model()),
    {
        let mut o = other;
        if usize::MAX - self.words < o.words {
            self.words = usize::MAX;
        } else {
            self.words = self.words + o.words;
        }
        self.entries.append(&mut o.entries);
        proof {
            lemma_entries_map_concat(old(self).entries@, other.entries@);
            lemma_total_postings_concat(old(self).entries@, other.entries@);
            assert(final(self).model() =~= index_combine(old(self).model(), other.model()));
        }
    }

    /// Whether this fragment has grown past the spill threshold.
    pub fn is_large(&self, threshold: usize) -> (r: bool)
        requires
            self.wf(),
        ensures
            r == index_is_large(self.model(), threshold),
    {
        self.words >= threshold
    }

    /// Build the index of one document: each word of `text` contributes one
    /// posting `(doc_id, word position)` to its term.
    pub fn from_single_document(doc_id: usize, text: Vec<u8>) -> (r: InMemoryIndex)
        ensures
            r.wf(),
            r.model() == doc_index_model(doc_id, text@),
    {
        let mut entries: Vec<TermEntry> = Vec::new();
        let mut cur: Vec<u8> = Vec::new();
        let mut count: usize = 0;
        let ghost mut done: Seq<Seq<u8>> = Seq::empty();
        let n = text.len();
        let mut i: usize = 0;
        proof {
            assert(text@.skip(0) =~= text@);
            assert(Seq::<Seq<u8>>::empty() + tokens_acc(text@, Seq::empty()) =~= tokens_acc(
                text@,
                Seq::empty(),
            ));
        }
        while i < n
            invariant
                n == text@.len(),
                i <= n,
                count as int == done.len(),
                count + cur@.len() <= i,
                tokens(text@) == done + tokens_acc(text@.skip(i as int), cur@),
                entries_map(entries@) == doc_map(doc_id, done),
                total_postings(entries@) == done.len(),
            decreases n - i,
        {
            let ghost prev_done = done;
            let ghost prev_entries = entries@;
            let ghost prev_cur = cur@;
            let b = text[i];
            proof {
                assert(text@.skip(i as int)[0] == text@[i as int]);
                assert(text@.skip(i as int).drop_first() =~= text@.skip(i as int + 1));
            }
            if b != 32 && b != 9 && b != 10 && b != 13 {
                cur.push(b);
            } else {
                if cur.len() > 0 {
                    let mut t: Vec<u8> = Vec::new();
                    core::mem::swap(&mut cur, &mut t);
                    let mut ps: Vec<Posting> = Vec::new();
                    ps.push(Posting { doc: doc_id, pos: count });
                    entries.push(TermEntry { term: t, postings: ps });
                    count = count + 1;
                    proof {
                        done = done.push(t@);
                        assert(prev_done + (seq![prev_cur] + tokens_acc(
                            text@.skip(i as int + 1),
                            Seq::empty(),
                        )) =~= done + tokens_acc(text@.skip(i as int + 1), Seq::empty()));
                        assert(entries@.drop_last() =~= prev_entries);
                        assert(done.drop_last() =~= prev_done);
                        let m = doc_map(doc_id, prev_done);
                        assert(map_postings(m, prev_cur) + entries@.last().postings@
                            =~= map_postings(m, prev_cur).push(
                            Posting { doc: doc_id, pos: (done.len() - 1) as usize },
                        ));
                        assert(entries_map(entries@) == doc_map(doc_id, done));
                    }
                }
            }
            i = i + 1;
        }
        proof {
            assert(text@.skip(n as int) =~= Seq::<u8>::empty());
        }
        if cur.len() > 0 {
            let ghost prev_done = done;
            let ghost prev_entries = entries@;
            let mut ps: Vec<Posting> = Vec::new();
            ps.push(Posting { doc: doc_id, pos: count });
            entries.push(TermEntry { term: cur, postings: ps });
            count = count + 1;
            proof {
                done = done.push(cur@);
                assert(tokens(text@) =~= done);
                assert(entries@.drop_last() =~= prev_entries);
                assert(done.drop_last() =~= prev_done);
                let m = doc_map(doc_id, prev_done);
                assert(map_postings(m, cur@) + entries@.last().postings@ =~= map_postings(
                    m,
                    cur@,
                ).push(Posting { doc: doc_id, pos: (done.len() - 1) as usize }));
                assert(entries_map(entries@) == doc_map(doc_id, done));
            }
        } else {
            proof {
                assert(tokens(text@) =~= done);
            }
        }
        let r = InMemoryIndex { entries, words: count };
        proof {
            assert(r.model() =~= doc_index_model(doc_id, text@));
        }
        r
    }

    /// All postings recorded for `term`, in order.
    pub fn postings_for(&self, term: &Vec<u8>) -> (r: Vec<Posting>)
        ensures
            r@ == map_postings(self.model().map, term@),
    {
        let mut r: Vec<Posting> = Vec::new();
        let mut i: usize = 0;
        while i < self.entries.len()
            invariant
                i <= self.entries@.len(),
                r@ == map_postings(entries_map(self.entries@.take(i as int)), term@),
            decreases self.entries@.len() - i,
        {
            let ghost prev_r = r@;
            let e = &self.entries[i];
            if bytes_eq(&e.term, term) {
                let mut j: usize = 0;
                while j < e.postings.len()
                    invariant
                        j <= e.postings@.len(),
                        r@ == prev_r + e.postings@.take(j as int),
                    decreases e.postings@.len() - j,
                {
                    r.push(e.postings[j]);
                    proof {
                        assert(prev_r + e.postings@.take(j as int + 1) =~= (prev_r
                            + e.postings@.take(j as int)).push(e.postings@[j as int]));
                    }
                    j = j + 1;
                }
                proof {
                    assert(e.postings@.take(e.postings@.len() as int) =~= e.postings@);
                }
            }
            proof {
                let pre = self.entries@.take(i as int);
                let post = self.entries@.take(i as int + 1);
                assert(post.drop_last() =~= pre);
                assert(post.last() == self.entries@[i as int]);
                let m = entries_map(pre);
                if e.term@ == term@ {
                    assert(r@ == map_postings(entries_map(post), term@));
                } else {
                    assert(map_postings(entries_map(post), term@) == map_postings(m, term@));
                }
            }
            i = i + 1;
        }
        proof {
            assert(self.entries@.take(self.entries@.len() as int) =~= self.entries@);
        }
        r
    }

    /// The terms this index holds entries for, in recorded order; a term
    /// merged from several fragments may be listed more than once.
    pub fn entry_terms(&self) -> (r: Vec<Vec<u8>>)
        ensures
            forall|j: int|
                0 <= j < r@.len() ==> self.model().map.contains_key((#[trigger] r@[j])@),
            forall|k: Seq<u8>|
                self.model().map.contains_key(k) ==> exists|j: int|
                    0 <= j < r@.len() && (#[trigger] r@[j])@ == k,
    {
        let mut r: Vec<Vec<u8>> = Vec::new();
        let mut i: usize = 0;
        while i < self.entries.len()
            invariant
                i <= self.entries@.len(),
                r@.len() == i as int,
                forall|j: int| 0 <= j < i ==> (#[trigger] r@[j])@ == self.entries@[j].term@,
            decreases self.entries@.len() - i,
        {
            let src = &self.entries[i].term;
            let mut t: Vec<u8> = Vec::new();
            let mut b: usize = 0;
            while b < src.len()
                invariant
                    b <= src@.len(),
                    t@ == src@.take(b as int),
                decreases src@.len() - b,
            {
                t.push(src[b]);
                proof {
                    assert(src@.take(b as int).push(src@[b as int]) =~= src@.take(b as int + 1));
                }
                b = b + 1;
            }
            proof {
                assert(src@.take(src@.len() as int) =~= src@);
            }
            r.push(t);
            i = i + 1;
        }
        proof {
            assert forall|j: int| 0 <= j < r@.len() implies self.model().map.contains_key(
                (#[trigger] r@[j])@,
            ) by {
                lemma_entries_map_key_of_entry(self.entries@, j);
            }
            assert forall|k: Seq<u8>| self.model().map.contains_key(k) implies exists|j: int|
                0 <= j < r@.len() && (#[trigger] r@[j])@ == k by {
                let w = lemma_entries_map_key_listed(self.entries@, k);
                assert(r@[w]@ == k);
            }
        }
        r
    }

    pub fn is_empty(&self) -> (r: bool)
        requires
            self.wf(),
        ensures
            r == (self.model() == empty_index_model()),
    {
        let r = self.entries.len() == 0;
        proof {
            if r {
                assert(self.model() =~= empty_index_model());
            } else {
                let k = self.entries@.last().term@;
                assert(self.model().map.contains_key(k));
                if self.model() == empty_index_model() {
                    assert(!Map::<Seq<u8>, Seq<Posting>>::empty().contains_key(k));
                }
            }
        }
        r
    }
}

} // verus!
