//! The keyword subsystem as a whole: the dictionary and the index of documents.

use std::sync::Arc;

use vstd::prelude::*;

use crate::binary64::{unit_clamped, Real};
use crate::keyword::composite::{is_literal_answer, same_layer, vector_seqs, CompositeIndex,
    CompositeIndexConfig, FuzzyKeywordIndex};
use crate::keyword::index::{keyword_ref_label, parsed_keywords, result_views, without_ids,
    without_ref, DocView, KeywordQuery, KeywordRef, MatchStrategy, QueryView, RefView,
    ScoringStrategy};
use crate::keyword::normalizer::{dictionary_words, scan_tokens, BigramNormalizer,
    BigramWithDictionaryNormalizer, KeywordNormalizer};
use crate::keyword::pool::{canonicals_in, entry_views, resolved, upsert_fits, upserted, use_keys,
    EntryView, KeywordPool, KeywordStatus, PoolEntry};
use crate::keyword::token::{distinct, law_distinct_keeps_first, token_text, token_texts, KeywordSet,
    KeywordToken};
use crate::order::ordered_by;
use crate::text::{blank, copy_text, is_blank, is_space, law_trim_takes_spaces_off, lower, opt_text,
    same_text, texts, trim};
use crate::text_map::TextMap;

verus! {

/// A row of the stored dictionary.
#[derive(Debug)]
pub struct KeywordPoolRow {
    pub rowid: i64,
    pub keyword: String,
    pub use_count: i64,
    pub created_at: i64,
    pub alias_status: Option<String>,
    pub canonical_id: Option<i64>,
    pub canonical_keyword: Option<String>,
}

/// The state that a row describes. A row that names no other entry stands for itself.
pub open spec fn row_status(status: Option<Seq<char>>, canonical_id: Option<i64>) -> KeywordStatus {
    match (status, canonical_id) {
        (Some(s), Some(id)) => if s == "alias"@ {
            KeywordStatus::Alias { canonical_id: id }
        } else if s == "pending"@ {
            KeywordStatus::Pending { suggested_canonical_id: id }
        } else {
            KeywordStatus::Canonical
        },
        _ => KeywordStatus::Canonical,
    }
}

/// The entries that the rows describe; rows with blank keywords give none.
pub open spec fn row_entries(rows: Seq<KeywordPoolRow>) -> Seq<EntryView>
    decreases rows.len(),
{
    if rows.len() == 0 {
        Seq::empty()
    } else {
        let front = row_entries(rows.drop_last());
        let row = rows.last();
        if blank(row.keyword@) {
            front
        } else {
            front.push(
                EntryView {
                    rowid: row.rowid,
                    token: token_text(row.keyword@),
                    use_count: row.use_count,
                    last_used_at: row.created_at,
                    created_at: row.created_at,
                    status: row_status(opt_text(row.alias_status), row.canonical_id),
                },
            )
        }
    }
}

/// The state that a row describes.
fn pool_status_from_row(row: &KeywordPoolRow) -> (r: KeywordStatus)
    ensures
        r == row_status(opt_text(row.alias_status), row.canonical_id),
{
    match (&row.alias_status, row.canonical_id) {
        (Some(s), Some(id)) => {
            if same_text(s.as_str(), "alias") {
                KeywordStatus::Alias { canonical_id: id }
            } else if same_text(s.as_str(), "pending") {
                KeywordStatus::Pending { suggested_canonical_id: id }
            } else {
                KeywordStatus::Canonical
            }
        },
        _ => KeywordStatus::Canonical,
    }
}

/// A conversation summary, as the index sees it.
#[derive(Debug)]
pub struct L1DocView {
    pub id: u128,
    pub summary: String,
    pub keywords: Option<String>,
    pub persona_uid: Option<String>,
    pub created_at: i64,
    pub salience: Real,
    pub last_accessed_at: Option<i64>,
}

/// An event, as the index sees it.
#[derive(Debug)]
pub struct L2DocView {
    pub id: i64,
    pub title: String,
    pub summary: String,
    pub keywords: Option<String>,
    pub attitude: Option<String>,
    pub paraphrase: Option<String>,
    pub persona_uid: String,
    pub share: Real,
    pub confidence: Real,
    pub created_at: i64,
    pub salience: Real,
}

/// The document of a summary; one without persona has the empty text for it.
pub open spec fn l1_doc(d: L1DocView) -> DocView {
    DocView {
        reff: RefView::L1 {
            id: d.id,
            persona_uid: match d.persona_uid {
                Some(p) => p@,
                None => Seq::empty(),
            },
        },
        keywords: parsed_keywords(opt_text(d.keywords)),
        salience: unit_clamped(d.salience),
        created_at: d.created_at,
    }
}

/// The document of an event.
pub open spec fn l2_doc(d: L2DocView) -> DocView {
    DocView {
        reff: RefView::L2 { id: d.id, persona_uid: d.persona_uid@ },
        keywords: parsed_keywords(opt_text(d.keywords)),
        salience: unit_clamped(d.salience),
        created_at: d.created_at,
    }
}

/// The documents after one more was entered.
pub open spec fn entered(docs: Seq<DocView>, d: DocView) -> Seq<DocView> {
    without_ref(docs, d.reff).push(d)
}

/// The documents after all of `more` were entered.
pub open spec fn all_entered(docs: Seq<DocView>, more: Seq<DocView>) -> Seq<DocView>
    decreases more.len(),
{
    if more.len() == 0 {
        docs
    } else {
        entered(all_entered(docs, more.drop_last()), more.last())
    }
}

proof fn lemma_entered_len(docs: Seq<DocView>, more: Seq<DocView>)
    ensures
        all_entered(docs, more).len() <= docs.len() + more.len(),
    decreases more.len(),
{
    if more.len() > 0 {
        lemma_entered_len(docs, more.drop_last());
        let before = all_entered(docs, more.drop_last());
        before.lemma_filter_len(|d: DocView| d.reff != more.last().reff);
    }
}

/// The documents of summaries.
pub open spec fn l1_docs(v: Seq<L1DocView>) -> Seq<DocView> {
    v.map_values(|d: L1DocView| l1_doc(d))
}

/// The documents of events.
pub open spec fn l2_docs(v: Seq<L2DocView>) -> Seq<DocView> {
    v.map_values(|d: L2DocView| l2_doc(d))
}

fn l1_ref(doc: &L1DocView) -> (r: KeywordRef)
    ensures
        r@ == l1_doc(*doc).reff,
{
    let persona_uid = match &doc.persona_uid {
        Some(p) => p.clone(),
        None => String::new(),
    };
    KeywordRef::L1 { id: doc.id, persona_uid }
}

fn l2_ref(doc: &L2DocView) -> (r: KeywordRef)
    ensures
        r@ == l2_doc(*doc).reff,
{
    KeywordRef::L2 { id: doc.id, persona_uid: doc.persona_uid.clone() }
}

/// An optional text, borrowed.
fn opt_str(o: &Option<String>) -> (r: Option<&str>)
    ensures
        match r {
            Some(s) => opt_text(*o) == Some(s@),
            None => opt_text(*o) is None,
        },
{
    match o {
        Some(s) => Some(s.as_str()),
        None => None,
    }
}

/// The dictionary after one use of each of the keywords.
pub open spec fn all_upserted(entries: Seq<EntryView>, tokens: Seq<Seq<char>>, now_ms: i64) -> Seq<
    EntryView,
>
    decreases tokens.len(),
{
    if tokens.len() == 0 {
        entries
    } else {
        upserted(all_upserted(entries, tokens.drop_last(), now_ms), tokens.last(), now_ms)
    }
}

/// Whether each of the uses can be counted.
pub open spec fn all_upserts_fit(
    entries: Seq<EntryView>,
    tokens: Seq<Seq<char>>,
    now_ms: i64,
) -> bool
    decreases tokens.len(),
{
    tokens.len() == 0 || (all_upserts_fit(entries, tokens.drop_last(), now_ms) && upsert_fits(
        all_upserted(entries, tokens.drop_last(), now_ms),
        tokens.last(),
    ))
}

proof fn lemma_fits_prefix(entries: Seq<EntryView>, tokens: Seq<Seq<char>>, now_ms: i64, k: int)
    requires
        0 <= k <= tokens.len(),
        all_upserts_fit(entries, tokens, now_ms),
    ensures
        all_upserts_fit(entries, tokens.take(k), now_ms),
    decreases tokens.len(),
{
    if k == tokens.len() {
        assert(tokens.take(k) =~= tokens);
    } else {
        lemma_fits_prefix(entries, tokens.drop_last(), now_ms, k);
        assert(tokens.drop_last().take(k) =~= tokens.take(k));
    }
}

/// `Arc::clone` of std: another pointer to the same value.
#[verifier::external_body]
fn share(a: &Arc<CompositeIndex>) -> (r: Arc<CompositeIndex>)
    ensures
        r == *a,
{
    Arc::clone(a)
}

/// The dictionary and the index of documents.
#[derive(Debug)]
pub struct KeywordService {
    pool: KeywordPool,
    composite: Arc<CompositeIndex>,
}

impl KeywordService {
    /// The entries of the dictionary.
    pub closed spec fn entries(&self) -> Seq<EntryView> {
        self.pool@
    }

    /// The index.
    pub closed spec fn mirror(&self) -> CompositeIndex {
        *self.composite
    }

    /// The documents of the index.
    pub open spec fn docs(&self) -> Seq<DocView> {
        self.mirror().docs()
    }

    /// Whether the index is well formed.
    pub open spec fn wf(&self) -> bool {
        self.mirror().wf()
    }

    /// An empty dictionary and an empty index.
    pub fn new() -> (r: Self)
        ensures
            r.wf(),
            r.entries() == Seq::<EntryView>::empty(),
            r.docs() == Seq::<DocView>::empty(),
            r.mirror().layer() is None,
            r.mirror().settings().enable_substring_fallback,
            r.mirror().settings().enable_semantic_fallback,
            r.mirror().settings().semantic_top_k == 3,
    {
        let config = CompositeIndexConfig::default();
        KeywordService { pool: KeywordPool::new(), composite: Arc::new(CompositeIndex::new(config)) }
    }

    /// The dictionary.
    pub fn pool(&self) -> (r: &KeywordPool)
        ensures
            r@ == self.entries(),
    {
        &self.pool
    }

    /// The index.
    pub fn composite(&self) -> (r: &CompositeIndex)
        ensures
            *r == self.mirror(),
    {
        &*self.composite
    }

    /// The index, shared. Later changes of the service do not reach it.
    pub fn composite_arc(&self) -> (r: Arc<CompositeIndex>)
        ensures
            *r == self.mirror(),
    {
        share(&self.composite)
    }

    /// What the dictionary says at this moment.
    pub fn pool_snapshot(&self) -> (r: KeywordPoolSnapshot)
        ensures
            r.words() == entry_tokens(self.entries()),
            r.resolutions() == snapshot_resolutions(
                self.entries(),
                self.entries().len() as int,
            ),
            r.wf(),
    {
        KeywordPoolSnapshot::from_pool(&self.pool)
    }

    /// The number of documents.
    pub fn doc_count(&self) -> (r: usize)
        ensures
            r == self.docs().len(),
    {
        self.composite.doc_count()
    }

    /// The number of entries of the dictionary.
    pub fn pool_len(&self) -> (r: usize)
        ensures
            r == self.entries().len(),
    {
        self.pool.len()
    }

    /// Replaces the dictionary by the entries that the rows describe.
    pub fn load_pool_entries(&mut self, rows: &[KeywordPoolRow])
        ensures
            final(self).entries() == row_entries(rows@),
            final(self).mirror() == old(self).mirror(),
    {
        let mut entries: Vec<PoolEntry> = Vec::new();
        let mut i: usize = 0;
        assert(entry_views(entries@) =~= row_entries(rows@.take(0)));
        while i < rows.len()
            invariant
                i <= rows@.len(),
                entry_views(entries@) == row_entries(rows@.take(i as int)),
            decreases rows@.len() - i,
        {
            let row = &rows[i];
            assert(rows@.take(i + 1).drop_last() =~= rows@.take(i as int));
            assert(rows@.take(i + 1).last() == rows@[i as int]);
            match KeywordToken::new(row.keyword.as_str()) {
                Some(token) => {
                    let e = PoolEntry {
                        rowid: row.rowid,
                        token,
                        use_count: row.use_count,
                        last_used_at: row.created_at,
                        created_at: row.created_at,
                        status: pool_status_from_row(row),
                    };
                    let ghost before = entry_views(entries@);
                    let ghost ev = e@;
                    entries.push(e);
                    assert(entry_views(entries@) =~= before.push(ev));
                },
                None => {},
            }
            i += 1;
        }
        assert(rows@.take(i as int) =~= rows@);
        self.pool = KeywordPool::from_entries(entries);
    }

    /// Whether one use of each of the keywords can be counted.
    pub fn can_upsert_tokens(&self, tokens: &[KeywordToken], now_ms: i64) -> (r: bool)
        ensures
            r == all_upserts_fit(self.entries(), token_texts(tokens@), now_ms),
    {
        let mut trial = self.pool.clone();
        let ghost all = token_texts(tokens@);
        let mut i: usize = 0;
        assert(all.take(0) =~= Seq::<Seq<char>>::empty());
        while i < tokens.len()
            invariant
                i <= tokens@.len(),
                all == token_texts(tokens@),
                trial@ == all_upserted(self.entries(), all.take(i as int), now_ms),
                all_upserts_fit(self.entries(), all.take(i as int), now_ms),
            decreases tokens@.len() - i,
        {
            assert(all.take(i + 1).drop_last() =~= all.take(i as int));
            assert(all.take(i + 1).last() == tokens@[i as int]@);
            if !trial.can_upsert(&tokens[i]) {
                proof {
                    if all_upserts_fit(self.entries(), all, now_ms) {
                        lemma_fits_prefix(self.entries(), all, now_ms, i + 1);
                    }
                }
                return false;
            }
            trial.upsert(tokens[i].clone(), now_ms);
            i += 1;
        }
        assert(all.take(i as int) =~= all);
        true
    }

    /// Counts one use of each of the keywords; gives their number.
    pub fn upsert_pool_tokens(&mut self, tokens: &[KeywordToken], now_ms: i64) -> (r: usize)
        requires
            all_upserts_fit(old(self).entries(), token_texts(tokens@), now_ms),
        ensures
            r == tokens@.len(),
            final(self).entries() == all_upserted(
                old(self).entries(),
                token_texts(tokens@),
                now_ms,
            ),
            final(self).mirror() == old(self).mirror(),
    {
        let ghost all = token_texts(tokens@);
        let mut i: usize = 0;
        assert(all.take(0) =~= Seq::<Seq<char>>::empty());
        while i < tokens.len()
            invariant
                i <= tokens@.len(),
                all == token_texts(tokens@),
                all_upserts_fit(old(self).entries(), all, now_ms),
                self.entries() == all_upserted(old(self).entries(), all.take(i as int), now_ms),
                self.mirror() == old(self).mirror(),
            decreases tokens@.len() - i,
        {
            proof {
                assert(all.take(i + 1).drop_last() =~= all.take(i as int));
                assert(all.take(i + 1).last() == tokens@[i as int]@);
                lemma_fits_prefix(old(self).entries(), all, now_ms, i + 1);
            }
            self.pool.upsert(tokens[i].clone(), now_ms);
            i += 1;
        }
        assert(all.take(i as int) =~= all);
        tokens.len()
    }

    /// The canonical keywords, the most used first.
    pub fn canonical_terms(&self) -> (r: Vec<KeywordToken>)
        ensures
            exists|p: Seq<usize>| #[trigger]
                ordered_by(p, use_keys(self.entries())) && token_texts(r@) == canonicals_in(
                    self.entries(),
                    p,
                ),
    {
        let r = self.pool.list_canonicals();
        proof {
            let p = choose|p: Seq<usize>| #[trigger]
                ordered_by(p, use_keys(self.pool@)) && token_texts(r@) == canonicals_in(
                    self.pool@,
                    p,
                );
            assert(ordered_by(p, use_keys(self.entries())));
        }
        r
    }

    /// Replaces the index by one of the given summaries and events, without a semantic
    /// layer.
    pub fn reset_docs_from_views(&mut self, l1: &[L1DocView], l2: &[L2DocView])
        requires
            l1@.len() + l2@.len() <= usize::MAX,
        ensures
            final(self).wf(),
            final(self).docs() == all_entered(
                all_entered(Seq::empty(), l1_docs(l1@)),
                l2_docs(l2@),
            ),
            final(self).mirror().layer() is None,
            final(self).mirror().settings().enable_substring_fallback,
            final(self).mirror().settings().enable_semantic_fallback,
            final(self).mirror().settings().semantic_top_k == 3,
            final(self).entries() == old(self).entries(),
    {
        let config = CompositeIndexConfig::default();
        let mut c = CompositeIndex::new(config);
        let ghost a = l1_docs(l1@);
        let ghost b = l2_docs(l2@);
        let mut i: usize = 0;
        assert(a.take(0) =~= Seq::<DocView>::empty());
        while i < l1.len()
            invariant
                i <= l1@.len(),
                l1@.len() + l2@.len() <= usize::MAX,
                a == l1_docs(l1@),
                c.wf(),
                c.layer() is None,
                c.settings() == config,
                c.docs() == all_entered(Seq::empty(), a.take(i as int)),
            decreases l1@.len() - i,
        {
            let doc = &l1[i];
            proof {
                lemma_entered_len(Seq::empty(), a.take(i as int));
                assert(a.take(i + 1).drop_last() =~= a.take(i as int));
                assert(a.take(i + 1).last() == l1_doc(*doc));
            }
            c.index_parsed(l1_ref(doc), opt_str(&doc.keywords), doc.salience, doc.created_at);
            i += 1;
        }
        assert(a.take(i as int) =~= a);
        let ghost first = all_entered(Seq::empty(), a);
        let mut j: usize = 0;
        assert(b.take(0) =~= Seq::<DocView>::empty());
        proof {
            lemma_entered_len(Seq::empty(), a);
        }
        while j < l2.len()
            invariant
                j <= l2@.len(),
                l1@.len() + l2@.len() <= usize::MAX,
                first.len() <= l1@.len(),
                b == l2_docs(l2@),
                c.wf(),
                c.layer() is None,
                c.settings() == config,
                c.docs() == all_entered(first, b.take(j as int)),
            decreases l2@.len() - j,
        {
            let doc = &l2[j];
            proof {
                lemma_entered_len(first, b.take(j as int));
                assert(b.take(j + 1).drop_last() =~= b.take(j as int));
                assert(b.take(j + 1).last() == l2_doc(*doc));
            }
            c.index_parsed(l2_ref(doc), opt_str(&doc.keywords), doc.salience, doc.created_at);
            j += 1;
        }
        assert(b.take(j as int) =~= b);
        self.composite = Arc::new(c);
    }

    /// Empties the index; the dictionary stays.
    pub fn clear_docs(&mut self)
        ensures
            final(self).wf(),
            final(self).docs() == Seq::<DocView>::empty(),
            final(self).mirror().layer() is None,
            final(self).mirror().settings().enable_substring_fallback,
            final(self).mirror().settings().enable_semantic_fallback,
            final(self).mirror().settings().semantic_top_k == 3,
            final(self).entries() == old(self).entries(),
    {
        let config = CompositeIndexConfig::default();
        self.composite = Arc::new(CompositeIndex::new(config));
    }

    /// Enters a summary; gives the number of documents.
    pub fn index_l1(&mut self, doc: &L1DocView) -> (r: usize)
        requires
            old(self).wf(),
            old(self).docs().len() < usize::MAX,
        ensures
            final(self).wf(),
            final(self).docs() == entered(old(self).docs(), l1_doc(*doc)),
            r == final(self).docs().len(),
            final(self).entries() == old(self).entries(),
            final(self).mirror().settings() == old(self).mirror().settings(),
            same_layer(final(self).mirror().layer(), old(self).mirror().layer()),
    {
        let mut c = (*self.composite).clone();
        let r: usize = c.index_parsed(
            l1_ref(doc),
            opt_str(&doc.keywords),
            doc.salience,
            doc.created_at,
        );
        self.composite = Arc::new(c);
        r
    }

    /// Enters an event; gives the number of documents.
    pub fn index_l2(&mut self, doc: &L2DocView) -> (r: usize)
        requires
            old(self).wf(),
            old(self).docs().len() < usize::MAX,
        ensures
            final(self).wf(),
            final(self).docs() == entered(old(self).docs(), l2_doc(*doc)),
            r == final(self).docs().len(),
            final(self).entries() == old(self).entries(),
            final(self).mirror().settings() == old(self).mirror().settings(),
            same_layer(final(self).mirror().layer(), old(self).mirror().layer()),
    {
        let mut c = (*self.composite).clone();
        let r: usize = c.index_parsed(
            l2_ref(doc),
            opt_str(&doc.keywords),
            doc.salience,
            doc.created_at,
        );
        self.composite = Arc::new(c);
        r
    }

    /// Takes out the summary with this identifier, whatever its persona; false where there
    /// is none.
    pub fn remove_l1(&mut self, id: u128) -> (r: bool)
        requires
            old(self).wf(),
        ensures
            final(self).wf(),
            final(self).docs() == without_ids(old(self).docs(), seq![id], Seq::empty()),
            r == (final(self).docs().len() < old(self).docs().len()),
            final(self).entries() == old(self).entries(),
            final(self).mirror().settings() == old(self).mirror().settings(),
            same_layer(final(self).mirror().layer(), old(self).mirror().layer()),
    {
        let ids: [u128; 1] = [id];
        let none: [i64; 0] = [];
        assert(ids@ =~= seq![id]);
        assert(none@ =~= Seq::<i64>::empty());
        self.remove_doc_batch(&ids, &none) > 0
    }

    /// Takes out the event with this number, whatever its persona; false where there is
    /// none.
    pub fn remove_l2(&mut self, id: i64) -> (r: bool)
        requires
            old(self).wf(),
        ensures
            final(self).wf(),
            final(self).docs() == without_ids(old(self).docs(), Seq::empty(), seq![id]),
            r == (final(self).docs().len() < old(self).docs().len()),
            final(self).entries() == old(self).entries(),
            final(self).mirror().settings() == old(self).mirror().settings(),
            same_layer(final(self).mirror().layer(), old(self).mirror().layer()),
    {
        let ids: [i64; 1] = [id];
        let none: [u128; 0] = [];
        assert(ids@ =~= seq![id]);
        assert(none@ =~= Seq::<u128>::empty());
        self.remove_doc_batch(&none, &ids) > 0
    }

    /// Takes out the documents with the given identifiers; gives their number.
    pub fn remove_doc_batch(&mut self, l1_ids: &[u128], l2_ids: &[i64]) -> (r: usize)
        requires
            old(self).wf(),
        ensures
            final(self).wf(),
            final(self).docs() == without_ids(old(self).docs(), l1_ids@, l2_ids@),
            r == old(self).docs().len() - final(self).docs().len(),
            final(self).entries() == old(self).entries(),
            final(self).mirror().settings() == old(self).mirror().settings(),
            same_layer(final(self).mirror().layer(), old(self).mirror().layer()),
    {
        let mut c = (*self.composite).clone();
        let r: usize = c.remove_doc_batch(l1_ids, l2_ids);
        self.composite = Arc::new(c);
        r
    }

    /// Sets the semantic layer.
    pub fn set_fuzzy(&mut self, fuzzy: Option<FuzzyKeywordIndex>)
        requires
            old(self).wf(),
        ensures
            final(self).wf(),
            final(self).docs() == old(self).docs(),
            final(self).mirror().layer() == fuzzy,
            final(self).entries() == old(self).entries(),
            final(self).mirror().settings() == old(self).mirror().settings(),
    {
        let mut c = (*self.composite).clone();
        c.set_fuzzy(fuzzy);
        self.composite = Arc::new(c);
    }

    /// Builds the semantic layer of the given terms from their vectors. Where there are no
    /// vectors, or they do not fit, there is no layer afterwards.
    pub fn rebuild_fuzzy(&mut self, terms: Vec<KeywordToken>, vectors: Option<Vec<Vec<u32>>>)
        requires
            old(self).wf(),
        ensures
            final(self).wf(),
            final(self).docs() == old(self).docs(),
            final(self).entries() == old(self).entries(),
            final(self).mirror().settings() == old(self).mirror().settings(),
            match (vectors, final(self).mirror().layer()) {
                (Some(v), Some(f)) => {
                    &&& crate::keyword::composite::fuzzy_error(
                        terms@.len(),
                        vector_seqs(v@),
                    ) is None
                    &&& f.terms() == token_texts(terms@)
                    &&& f.vectors() == vector_seqs(v@)
                },
                (Some(v), None) => crate::keyword::composite::fuzzy_error(
                    terms@.len(),
                    vector_seqs(v@),
                ) is Some,
                (None, layer) => layer is None,
            },
    {
        let layer = match vectors {
            Some(v) => match FuzzyKeywordIndex::build(terms, v) {
                Ok(f) => Some(f),
                Err(_) => None,
            },
            None => None,
        };
        self.set_fuzzy(layer);
    }
}

/// The keywords of the entries.
pub open spec fn entry_tokens(entries: Seq<EntryView>) -> Seq<Seq<char>> {
    entries.map_values(|e: EntryView| e.token)
}

/// For the first `n` entries, the keywords that stand for another one, with that one.
pub open spec fn snapshot_resolutions(entries: Seq<EntryView>, n: int) -> Map<Seq<char>, Seq<char>>
    decreases n,
{
    if n <= 0 {
        Map::empty()
    } else {
        let front = snapshot_resolutions(entries, n - 1);
        let t = entries[n - 1].token;
        match resolved(entries, t) {
            Some(c) => if c != t {
                front.insert(t, c)
            } else {
                front
            },
            None => front,
        }
    }
}

/// What the dictionary said at one moment.
#[derive(Debug)]
pub struct KeywordPoolSnapshot {
    dictionary: Vec<String>,
    resolve: TextMap<String>,
}

impl KeywordPoolSnapshot {
    /// The keywords of the dictionary.
    pub closed spec fn words(&self) -> Seq<Seq<char>> {
        texts(self.dictionary@)
    }

    /// For the keywords that stand for another one, that one.
    pub closed spec fn resolutions(&self) -> Map<Seq<char>, Seq<char>> {
        self.resolve@.map_values(|s: String| s@)
    }

    /// Whether the map is well formed.
    pub closed spec fn wf(&self) -> bool {
        self.resolve.wf()
    }

    /// What a dictionary says at this moment.
    pub fn from_pool(pool: &KeywordPool) -> (r: Self)
        ensures
            r.words() == entry_tokens(pool@),
            r.resolutions() == snapshot_resolutions(pool@, pool@.len() as int),
            r.wf(),
    {
        let entries = pool.entries();
        let n: usize = entries.len();
        let mut dictionary: Vec<String> = Vec::new();
        let mut resolve: TextMap<String> = TextMap::new();
        let mut i: usize = 0;
        let ghost words = entry_tokens(pool@);
        assert(texts(dictionary@) =~= words.take(0));
        assert(resolve@.map_values(|s: String| s@) =~= Map::<Seq<char>, Seq<char>>::empty());
        while i < n
            invariant
                i <= n,
                n == entries@.len(),
                entry_views(entries@) == pool@,
                words == entry_tokens(pool@),
                resolve.wf(),
                texts(dictionary@) == words.take(i as int),
                resolve@.map_values(|s: String| s@) == snapshot_resolutions(pool@, i as int),
            decreases n - i,
        {
            let token = &entries[i].token;
            assert(pool@[i as int] == entries@[i as int]@);
            assert(words[i as int] == token@);
            let ghost before = texts(dictionary@);
            dictionary.push(copy_text(token.as_str()));
            assert(texts(dictionary@) =~= before.push(token@));
            match pool.resolve(token) {
                Some(c) => {
                    if !c.same(token) {
                        let ghost m = resolve@.map_values(|s: String| s@);
                        let value = copy_text(c.as_str());
                        resolve.insert(copy_text(token.as_str()), value);
                        assert(resolve@.map_values(|s: String| s@) =~= m.insert(token@, c@));
                    }
                },
                None => {},
            }
            i += 1;
            assert(words.take(i as int) =~= words.take(i - 1).push(words[i - 1]));
        }
        assert(words.take(i as int) =~= words);
        KeywordPoolSnapshot { dictionary, resolve }
    }

    /// Whether the dictionary had no entries.
    pub fn is_empty(&self) -> (r: bool)
        ensures
            r == (self.words().len() == 0),
    {
        self.dictionary.len() == 0
    }

    /// The keywords of the dictionary.
    pub fn dictionary(&self) -> (r: &[String])
        ensures
            texts(r@) == self.words(),
    {
        self.dictionary.as_slice()
    }

    /// For the keywords that stand for another one, that one.
    pub fn resolve(&self) -> (r: &TextMap<String>)
        requires
            self.wf(),
        ensures
            r.wf(),
            r@.map_values(|s: String| s@) == self.resolutions(),
    {
        &self.resolve
    }
}

impl Clone for KeywordPoolSnapshot {
    fn clone(&self) -> (r: Self)
        ensures
            r.words() == self.words(),
            r.resolutions() == self.resolutions(),
            r.wf() == self.wf(),
    {
        let mut dictionary: Vec<String> = Vec::new();
        let mut i: usize = 0;
        while i < self.dictionary.len()
            invariant
                i <= self.dictionary@.len(),
                dictionary@ == self.dictionary@.take(i as int),
            decreases self.dictionary@.len() - i,
        {
            dictionary.push(self.dictionary[i].clone());
            i += 1;
            assert(dictionary@ =~= self.dictionary@.take(i as int));
        }
        assert(dictionary@ =~= self.dictionary@);
        let resolve = self.resolve.clone();
        assert(resolve.list() =~= self.resolve.list());
        proof {
            resolve.lemma_same_list(&self.resolve);
        }
        KeywordPoolSnapshot { dictionary, resolve }
    }
}

impl Default for KeywordPoolSnapshot {
    /// What an empty dictionary says.
    fn default() -> (r: Self)
        ensures
            r.wf(),
            r.words() == Seq::<Seq<char>>::empty(),
            r.resolutions() == Map::<Seq<char>, Seq<char>>::empty(),
    {
        let r = KeywordPoolSnapshot { dictionary: Vec::new(), resolve: TextMap::new() };
        assert(r.words() =~= Seq::<Seq<char>>::empty());
        assert(r.resolutions() =~= Map::<Seq<char>, Seq<char>>::empty());
        r
    }
}

/// The tokens, each followed by the keyword that it stands for, where it stands for
/// another one.
pub open spec fn with_resolutions(
    tokens: Seq<Seq<char>>,
    resolutions: Map<Seq<char>, Seq<char>>,
) -> Seq<Seq<char>>
    decreases tokens.len(),
{
    if tokens.len() == 0 {
        Seq::empty()
    } else {
        let front = with_resolutions(tokens.drop_last(), resolutions).push(tokens.last());
        if resolutions.dom().contains(tokens.last()) && !blank(resolutions[tokens.last()]) {
            front.push(token_text(resolutions[tokens.last()]))
        } else {
            front
        }
    }
}

/// The keywords that a text asks for: its tokens by the words of the dictionary, together
/// with the keywords that they stand for.
pub open spec fn text_keywords(
    words: Seq<Seq<char>>,
    resolutions: Map<Seq<char>, Seq<char>>,
    text: Seq<char>,
) -> Seq<Seq<char>> {
    if words.len() == 0 {
        distinct(scan_tokens(Set::empty(), text, 0, Seq::empty()))
    } else {
        distinct(
            with_resolutions(
                scan_tokens(dictionary_words(words), text, 0, Seq::empty()),
                resolutions,
            ),
        )
    }
}

/// The query that a text makes.
pub open spec fn text_query_view(
    pool: &KeywordPoolSnapshot,
    text: Seq<char>,
    persona_uid: Option<&str>,
    top_k: usize,
) -> QueryView {
    QueryView {
        keywords: text_keywords(pool.words(), pool.resolutions(), text),
        persona_uid: match persona_uid {
            Some(p) => Some(p@),
            None => None,
        },
        top_k,
        strategy: MatchStrategy::Exact,
    }
}

/// The query that a text makes, if it makes one: there are documents, something is asked
/// for, and the text has keywords.
pub fn text_query(
    pool: &KeywordPoolSnapshot,
    text: &str,
    persona_uid: Option<&str>,
    top_k: usize,
    doc_count: usize,
) -> (r: Option<KeywordQuery>)
    requires
        pool.wf(),
    ensures
        match r {
            Some(q) => {
                &&& !blank(text@) && top_k > 0 && doc_count > 0
                &&& q@ == text_query_view(pool, text@, persona_uid, top_k)
                &&& q@.keywords.len() > 0
            },
            None => blank(text@) || top_k == 0 || doc_count == 0 || text_keywords(
                pool.words(),
                pool.resolutions(),
                text@,
            ).len() == 0,
        },
{
    if is_blank(text) || top_k == 0 || doc_count == 0 {
        return None;
    }
    let mut wanted: Vec<KeywordToken> = Vec::new();
    if pool.is_empty() {
        let n = BigramNormalizer;
        wanted = n.normalize(text);
    } else {
        let n = BigramWithDictionaryNormalizer::from_dictionary(pool.dictionary());
        let tokens = n.normalize(text);
        let ghost all = token_texts(tokens@);
        let known = pool.resolve();
        let ghost res = pool.resolutions();
        let mut i: usize = 0;
        assert(token_texts(wanted@) =~= with_resolutions(all.take(0), res));
        while i < tokens.len()
            invariant
                i <= tokens@.len(),
                all == token_texts(tokens@),
                known.wf(),
                known@.map_values(|s: String| s@) == res,
                token_texts(wanted@) == with_resolutions(all.take(i as int), res),
            decreases tokens@.len() - i,
        {
            let t = &tokens[i];
            proof {
                assert(all.take(i + 1).drop_last() =~= all.take(i as int));
                assert(all.take(i + 1).last() == t@);
                assert(res.dom() =~= known@.dom());
            }
            let ghost before = token_texts(wanted@);
            wanted.push(t.clone());
            assert(token_texts(wanted@) =~= before.push(t@));
            match known.get(t.as_str()) {
                Some(c) => {
                    assert(res[t@] == c@);
                    match KeywordToken::new(c.as_str()) {
                        Some(ct) => {
                            let ghost cv = ct@;
                            wanted.push(ct);
                            assert(token_texts(wanted@) =~= before.push(t@).push(cv));
                        },
                        None => {},
                    }
                },
                None => {},
            }
            i += 1;
        }
        assert(all.take(i as int) =~= all);
    }
    let keywords = KeywordSet::from_tokens(wanted);
    if keywords.is_empty() {
        return None;
    }
    let persona = match persona_uid {
        Some(p) => Some(copy_text(p)),
        None => None,
    };
    Some(KeywordQuery { keywords, persona_uid: persona, top_k, strategy: MatchStrategy::Exact })
}

/// The labels of the results; results without label are left out.
pub open spec fn labelled(results: Seq<(RefView, Real)>) -> Seq<(Seq<char>, Real)>
    decreases results.len(),
{
    if results.len() == 0 {
        Seq::empty()
    } else {
        let front = labelled(results.drop_last());
        match results.last().0.label() {
            Some(l) => front.push((l, results.last().1)),
            None => front,
        }
    }
}

/// What a sequence of labels says.
pub open spec fn label_views(v: Seq<(String, Real)>) -> Seq<(Seq<char>, Real)> {
    v.map_values(|x: (String, Real)| (x.0@, x.1))
}

/// The labels of search results.
pub fn hit_labels(hits: &Vec<(KeywordRef, Real)>) -> (r: Vec<(String, Real)>)
    ensures
        label_views(r@) == labelled(result_views(hits@)),
{
    let ghost all = result_views(hits@);
    let mut out: Vec<(String, Real)> = Vec::new();
    let mut i: usize = 0;
    assert(label_views(out@) =~= labelled(all.take(0)));
    while i < hits.len()
        invariant
            i <= hits@.len(),
            all == result_views(hits@),
            label_views(out@) == labelled(all.take(i as int)),
        decreases hits@.len() - i,
    {
        assert(all.take(i + 1).drop_last() =~= all.take(i as int));
        assert(all.take(i + 1).last() == (hits@[i as int].0@, hits@[i as int].1));
        match keyword_ref_label(&hits[i].0) {
            Some(l) => {
                let ghost before = label_views(out@);
                let ghost lv = l@;
                out.push((l, hits[i].1));
                assert(label_views(out@) =~= before.push((lv, hits@[i as int].1)));
            },
            None => {},
        }
        i += 1;
    }
    assert(all.take(i as int) =~= all);
    out
}

/// Searches the index for a text, by keywords and by parts of keywords; gives labels.
pub fn query_text_labels<S: ScoringStrategy>(
    composite: &CompositeIndex,
    pool: &KeywordPoolSnapshot,
    text: &str,
    persona_uid: Option<&str>,
    top_k: usize,
    now_ms: i64,
    scorer: &S,
) -> (r: Vec<(String, Real)>)
    requires
        composite.wf(),
        pool.wf(),
    ensures
        if blank(text@) || top_k == 0 || composite.docs().len() == 0 {
            label_views(r@) == Seq::<(Seq<char>, Real)>::empty()
        } else {
            exists|hits: Seq<(RefView, Real)>| #[trigger]
                is_literal_answer(
                    scorer,
                    now_ms,
                    composite.docs(),
                    composite.vocabulary(),
                    composite.settings(),
                    text_query_view(pool, text@, persona_uid, top_k),
                    hits,
                ) && label_views(r@) == labelled(hits)
        },
{
    match text_query(pool, text, persona_uid, top_k, composite.doc_count()) {
        Some(q) => {
            let hits = composite.literal_query(&q, now_ms, scorer);
            assert(is_literal_answer(
                scorer,
                now_ms,
                composite.docs(),
                composite.vocabulary(),
                composite.settings(),
                text_query_view(pool, text@, persona_uid, top_k),
                result_views(hits@),
            ));
            hit_labels(&hits)
        },
        None => {
            let none: Vec<(String, Real)> = Vec::new();
            assert(label_views(none@) =~= Seq::<(Seq<char>, Real)>::empty());
            assert(labelled(Seq::empty()) =~= Seq::empty());
            assert(text_keywords(pool.words(), pool.resolutions(), text@).len() == 0
                ==> is_literal_answer(
                scorer,
                now_ms,
                composite.docs(),
                composite.vocabulary(),
                composite.settings(),
                text_query_view(pool, text@, persona_uid, top_k),
                Seq::empty(),
            ));
            none
        },
    }
}

impl Clone for KeywordService {
    fn clone(&self) -> (r: Self)
        ensures
            r.entries() == self.entries(),
            r.mirror() == self.mirror(),
    {
        KeywordService { pool: self.pool.clone(), composite: share(&self.composite) }
    }
}

impl Default for KeywordService {
    fn default() -> (r: Self)
        ensures
            r.wf(),
            r.entries() == Seq::<EntryView>::empty(),
            r.docs() == Seq::<DocView>::empty(),
            r.mirror().layer() is None,
            r.mirror().settings().enable_substring_fallback,
            r.mirror().settings().enable_semantic_fallback,
            r.mirror().settings().semantic_top_k == 3,
    {
        KeywordService::new()
    }
}

/// A row with the status of an alias or of a pending entry, and with a row id that it points to,
/// is one; every other row is canonical.
pub proof fn law_rows_have_status(status: Option<Seq<char>>, canonical_id: Option<i64>)
    ensures
        status == Some("alias"@) && canonical_id is Some ==> row_status(status, canonical_id)
            == (KeywordStatus::Alias { canonical_id: canonical_id->0 }),
        status == Some("pending"@) && canonical_id is Some ==> row_status(status, canonical_id)
            == (KeywordStatus::Pending { suggested_canonical_id: canonical_id->0 }),
        canonical_id is None || (status != Some("alias"@) && status != Some("pending"@))
            ==> row_status(status, canonical_id) == KeywordStatus::Canonical,
{
    reveal_strlit("alias");
    reveal_strlit("pending");
    assert("alias"@.len() != "pending"@.len());
}

/// Every row whose keyword is not blank gives an entry, in order, with the keyword in normal
/// form; it counts as last used when it was made.
pub proof fn law_rows_give_entries(rows: Seq<KeywordPoolRow>)
    ensures
        row_entries(rows) == rows.filter(
            |r: KeywordPoolRow|
                exists|i: int| 0 <= i < r.keyword@.len() && !is_space(#[trigger] r.keyword@[i]),
        ).map_values(
            |r: KeywordPoolRow|
                EntryView {
                    rowid: r.rowid,
                    token: lower(trim(r.keyword@)),
                    use_count: r.use_count,
                    last_used_at: r.created_at,
                    created_at: r.created_at,
                    status: row_status(opt_text(r.alias_status), r.canonical_id),
                },
        ),
    decreases rows.len(),
{
    reveal(Seq::filter);
    let keep = |r: KeywordPoolRow|
        exists|i: int| 0 <= i < r.keyword@.len() && !is_space(#[trigger] r.keyword@[i]);
    let f = |r: KeywordPoolRow|
        EntryView {
            rowid: r.rowid,
            token: lower(trim(r.keyword@)),
            use_count: r.use_count,
            last_used_at: r.created_at,
            created_at: r.created_at,
            status: row_status(opt_text(r.alias_status), r.canonical_id),
        };
    if rows.len() > 0 {
        law_rows_give_entries(rows.drop_last());
        law_trim_takes_spaces_off(rows.last().keyword@);
        let front = rows.drop_last().filter(keep);
        assert(keep(rows.last()) == !blank(rows.last().keyword@));
        if keep(rows.last()) {
            assert(front.push(rows.last()).map_values(f) =~= front.map_values(f).push(
                f(rows.last()),
            ));
        }
    } else {
        assert(rows.filter(keep).map_values(f) =~= Seq::<EntryView>::empty());
    }
}

/// A summary and an event are entered under their identifiers and personas, with the keywords of
/// their fields, their salience brought into range, and their time. A summary without a persona
/// is entered under the empty one.
pub proof fn law_documents_keep_fields(a: L1DocView, b: L2DocView)
    ensures
        a.persona_uid matches Some(p) ==> l1_doc(a).reff == (RefView::L1 {
            id: a.id,
            persona_uid: p@,
        }),
        a.persona_uid is None ==> l1_doc(a).reff == (RefView::L1 {
            id: a.id,
            persona_uid: Seq::empty(),
        }),
        l1_doc(a).keywords == parsed_keywords(opt_text(a.keywords)),
        l1_doc(a).salience == unit_clamped(a.salience),
        l1_doc(a).created_at == a.created_at,
        l2_doc(b).reff == (RefView::L2 { id: b.id, persona_uid: b.persona_uid@ }),
        l2_doc(b).keywords == parsed_keywords(opt_text(b.keywords)),
        l2_doc(b).salience == unit_clamped(b.salience),
        l2_doc(b).created_at == b.created_at,
{
}

/// A document takes the place of the one with the same reference and comes last; the others stay
/// as they stood.
pub proof fn law_document_replaces(docs: Seq<DocView>, d: DocView)
    ensures
        entered(docs, d) == docs.filter(|x: DocView| x.reff != d.reff).push(d),
{
}

/// After entering several documents there are those of them that come last with their reference,
/// and the earlier documents whose references were not entered anew; no others.
pub proof fn law_last_documents_count(docs: Seq<DocView>, more: Seq<DocView>, x: DocView)
    ensures
        all_entered(docs, more).contains(x) <==> {
            ||| exists|k: int|
                0 <= k < more.len() && #[trigger] more[k] == x && forall|j: int|
                    k < j < more.len() ==> (#[trigger] more[j]).reff != x.reff
            ||| docs.contains(x) && forall|j: int|
                0 <= j < more.len() ==> (#[trigger] more[j]).reff != x.reff
        },
    decreases more.len(),
{
    if more.len() > 0 {
        let n = more.len() - 1;
        let front = more.drop_last();
        let d = more.last();
        let before = all_entered(docs, front);
        law_last_documents_count(docs, front, x);
        lemma_entered_contains(before, d, x);
        assert forall|j: int| 0 <= j < n implies #[trigger] more[j] == front[j] by {
        }
        if all_entered(docs, more).contains(x) {
            if x == d {
                assert(more[n] == x);
            } else {
                assert(before.contains(x) && x.reff != d.reff);
                if docs.contains(x) && (forall|j: int|
                    0 <= j < front.len() ==> (#[trigger] front[j]).reff != x.reff) {
                    assert forall|j: int| 0 <= j < more.len() implies (#[trigger] more[j]).reff
                        != x.reff by {
                        if j < n {
                            assert(front[j].reff != x.reff);
                        }
                    }
                } else {
                    let k = choose|k: int|
                        0 <= k < front.len() && #[trigger] front[k] == x && forall|j: int|
                            k < j < front.len() ==> (#[trigger] front[j]).reff != x.reff;
                    assert(more[k] == x);
                    assert forall|j: int| k < j < more.len() implies (#[trigger] more[j]).reff
                        != x.reff by {
                        if j < n {
                            assert(front[j].reff != x.reff);
                        }
                    }
                }
            }
        }
        if exists|k: int|
            0 <= k < more.len() && #[trigger] more[k] == x && forall|j: int|
                k < j < more.len() ==> (#[trigger] more[j]).reff != x.reff {
            let k = choose|k: int|
                0 <= k < more.len() && #[trigger] more[k] == x && forall|j: int|
                    k < j < more.len() ==> (#[trigger] more[j]).reff != x.reff;
            if k < n {
                assert(more[n].reff != x.reff);
                assert(front[k] == x);
                assert forall|j: int| k < j < front.len() implies (#[trigger] front[j]).reff
                    != x.reff by {
                    assert(more[j].reff != x.reff);
                }
                assert(before.contains(x));
            }
        }
        if docs.contains(x) && (forall|j: int|
            0 <= j < more.len() ==> (#[trigger] more[j]).reff != x.reff) {
            assert(more[n].reff != x.reff);
            assert forall|j: int| 0 <= j < front.len() implies (#[trigger] front[j]).reff
                != x.reff by {
                assert(more[j].reff != x.reff);
            }
            assert(before.contains(x));
        }
    }
}

proof fn lemma_entered_contains(docs: Seq<DocView>, d: DocView, x: DocView)
    ensures
        entered(docs, d).contains(x) <==> x == d || (docs.contains(x) && x.reff != d.reff),
{
    let keep = |y: DocView| y.reff != d.reff;
    let f = docs.filter(keep);
    let e = entered(docs, d);
    if e.contains(x) {
        let i = choose|i: int| 0 <= i < e.len() && e[i] == x;
        if i < f.len() {
            assert(f[i] == x);
            assert(f.contains(x));
            docs.lemma_filter_contains_rev(keep, x);
            docs.lemma_filter_pred(keep, i);
        }
    }
    if x == d {
        assert(e[f.len() as int] == x);
    }
    if docs.contains(x) && x.reff != d.reff {
        let i = choose|i: int| 0 <= i < docs.len() && docs[i] == x;
        docs.lemma_filter_contains(keep, i);
        let j = choose|j: int| 0 <= j < f.len() && f[j] == x;
        assert(e[j] == x);
    }
}

/// Uses are counted one keyword after the other, in order.
pub proof fn law_uses_are_counted_in_turn(
    entries: Seq<EntryView>,
    t: Seq<char>,
    rest: Seq<Seq<char>>,
    now_ms: i64,
)
    ensures
        all_upserted(entries, Seq::empty(), now_ms) == entries,
        all_upserted(entries, seq![t] + rest, now_ms) == all_upserted(
            upserted(entries, t, now_ms),
            rest,
            now_ms,
        ),
        all_upserts_fit(entries, Seq::empty(), now_ms),
        all_upserts_fit(entries, seq![t] + rest, now_ms) <==> upsert_fits(entries, t)
            && all_upserts_fit(upserted(entries, t, now_ms), rest, now_ms),
    decreases rest.len(),
{
    let all = seq![t] + rest;
    if rest.len() > 0 {
        law_uses_are_counted_in_turn(entries, t, rest.drop_last(), now_ms);
        assert(all.drop_last() =~= seq![t] + rest.drop_last());
        assert(all.last() == rest.last());
    } else {
        assert(all.drop_last() =~= Seq::<Seq<char>>::empty());
        assert(all.last() == t);
    }
}

/// A snapshot has, for every keyword that stands for another one, that one, and nothing else.
pub proof fn law_snapshot_resolves(entries: Seq<EntryView>, t: Seq<char>)
    ensures
        snapshot_resolutions(entries, entries.len() as int).dom().contains(t) <==> {
            &&& exists|i: int| 0 <= i < entries.len() && (#[trigger] entries[i]).token == t
            &&& resolved(entries, t) is Some
            &&& resolved(entries, t) != Some(t)
        },
        snapshot_resolutions(entries, entries.len() as int).dom().contains(t) ==> resolved(
            entries,
            t,
        ) == Some(snapshot_resolutions(entries, entries.len() as int)[t]),
{
    lemma_snapshot(entries, entries.len() as int, t);
}

proof fn lemma_snapshot(entries: Seq<EntryView>, n: int, t: Seq<char>)
    requires
        0 <= n <= entries.len(),
    ensures
        snapshot_resolutions(entries, n).dom().contains(t) <==> {
            &&& exists|i: int| 0 <= i < n && (#[trigger] entries[i]).token == t
            &&& resolved(entries, t) is Some
            &&& resolved(entries, t) != Some(t)
        },
        snapshot_resolutions(entries, n).dom().contains(t) ==> resolved(entries, t) == Some(
            snapshot_resolutions(entries, n)[t],
        ),
    decreases n,
{
    if n > 0 {
        lemma_snapshot(entries, n - 1, t);
        if entries[n - 1].token != t && (exists|i: int|
            0 <= i < n && (#[trigger] entries[i]).token == t) {
            let i = choose|i: int| 0 <= i < n && (#[trigger] entries[i]).token == t;
            assert(i < n - 1);
        }
    }
}

/// Keywords are looked for as they stand, each followed by the one that it stands for, where it
/// stands for one that is not blank.
pub proof fn law_resolutions_follow(
    tokens: Seq<Seq<char>>,
    t: Seq<char>,
    resolutions: Map<Seq<char>, Seq<char>>,
)
    ensures
        with_resolutions(Seq::empty(), resolutions).len() == 0,
        with_resolutions(tokens.push(t), resolutions) == with_resolutions(tokens, resolutions)
            + seq![t] + (if resolutions.dom().contains(t) && trim(resolutions[t]).len() > 0 {
            seq![lower(trim(resolutions[t]))]
        } else {
            Seq::empty()
        }),
{
    let all = tokens.push(t);
    assert(all.drop_last() =~= tokens);
    assert(all.last() == t);
    assert(with_resolutions(all, resolutions) =~= with_resolutions(tokens, resolutions) + seq![t]
        + (if resolutions.dom().contains(t) && trim(resolutions[t]).len() > 0 {
        seq![lower(trim(resolutions[t]))]
    } else {
        Seq::empty()
    }));
}

/// The keywords of a text are what is looked for, each once: without a dictionary the pairs of
/// ideographs and the runs of the text, with one also its words, and what they stand for.
pub proof fn law_keywords_of_text(
    words: Seq<Seq<char>>,
    resolutions: Map<Seq<char>, Seq<char>>,
    text: Seq<char>,
    plain: BigramNormalizer,
    n: BigramWithDictionaryNormalizer,
    t: Seq<char>,
)
    requires
        n.words() == dictionary_words(words),
    ensures
        text_keywords(words, resolutions, text).no_duplicates(),
        words.len() == 0 ==> (text_keywords(words, resolutions, text).contains(t)
            <==> plain.tokens(text).contains(t)),
        words.len() > 0 ==> (text_keywords(words, resolutions, text).contains(t) <==> n.tokens(
            text,
        ).contains(t) || exists|i: int|
            0 <= i < n.tokens(text).len() && resolutions.dom().contains(
                #[trigger] n.tokens(text)[i],
            ) && trim(resolutions[n.tokens(text)[i]]).len() > 0 && t == lower(
                trim(resolutions[n.tokens(text)[i]]),
            )),
{
    if words.len() == 0 {
        law_distinct_keeps_first(plain.tokens(text));
    } else {
        law_distinct_keeps_first(with_resolutions(n.tokens(text), resolutions));
        lemma_resolutions_contain(n.tokens(text), resolutions, t);
    }
}

proof fn lemma_resolutions_contain(
    tokens: Seq<Seq<char>>,
    resolutions: Map<Seq<char>, Seq<char>>,
    t: Seq<char>,
)
    ensures
        with_resolutions(tokens, resolutions).contains(t) <==> tokens.contains(t) || exists|i: int|
            0 <= i < tokens.len() && resolutions.dom().contains(#[trigger] tokens[i]) && trim(
                resolutions[tokens[i]],
            ).len() > 0 && t == lower(trim(resolutions[tokens[i]])),
    decreases tokens.len(),
{
    if tokens.len() > 0 {
        let n = tokens.len() - 1;
        let front = tokens.drop_last();
        let x = tokens.last();
        let a = with_resolutions(front, resolutions);
        let w = with_resolutions(tokens, resolutions);
        lemma_resolutions_contain(front, resolutions, t);
        if w.contains(t) {
            let k = choose|k: int| 0 <= k < w.len() && w[k] == t;
            if k < a.len() {
                assert(a[k] == t);
                assert(a.contains(t));
                if front.contains(t) {
                    let i = choose|i: int| 0 <= i < front.len() && front[i] == t;
                    assert(tokens[i] == t);
                } else {
                    let i = choose|i: int|
                        0 <= i < front.len() && resolutions.dom().contains(#[trigger] front[i])
                            && trim(resolutions[front[i]]).len() > 0 && t == lower(
                            trim(resolutions[front[i]]),
                        );
                    assert(tokens[i] == front[i]);
                }
            } else if k == a.len() {
                assert(tokens[n] == t);
            } else {
                assert(resolutions.dom().contains(tokens[n]));
            }
        }
        if tokens.contains(t) {
            let i = choose|i: int| 0 <= i < tokens.len() && tokens[i] == t;
            if i < n {
                assert(front[i] == t);
                assert(front.contains(t));
                let k = choose|k: int| 0 <= k < a.len() && a[k] == t;
                assert(w[k] == t);
            } else {
                assert(w[a.len() as int] == t);
            }
        }
        if exists|i: int|
            0 <= i < tokens.len() && resolutions.dom().contains(#[trigger] tokens[i]) && trim(
                resolutions[tokens[i]],
            ).len() > 0 && t == lower(trim(resolutions[tokens[i]])) {
            let i = choose|i: int|
                0 <= i < tokens.len() && resolutions.dom().contains(#[trigger] tokens[i]) && trim(
                    resolutions[tokens[i]],
                ).len() > 0 && t == lower(trim(resolutions[tokens[i]]));
            if i < n {
                assert(front[i] == tokens[i]);
                assert(a.contains(t));
                let k = choose|k: int| 0 <= k < a.len() && a[k] == t;
                assert(w[k] == t);
            } else {
                assert(w[a.len() as int + 1] == t);
            }
        }
    }
}

/// A text is looked for by its keywords, whole, for the persona that asks and for as many
/// results as wanted.
pub proof fn law_text_is_looked_for(
    pool: &KeywordPoolSnapshot,
    text: Seq<char>,
    persona_uid: Option<&str>,
    top_k: usize,
)
    ensures
        text_query_view(pool, text, persona_uid, top_k).keywords == text_keywords(
            pool.words(),
            pool.resolutions(),
            text,
        ),
        persona_uid matches Some(p) ==> text_query_view(
            pool,
            text,
            persona_uid,
            top_k,
        ).persona_uid == Some(p@),
        persona_uid is None ==> text_query_view(pool, text, persona_uid, top_k).persona_uid is None,
        text_query_view(pool, text, persona_uid, top_k).top_k == top_k,
        text_query_view(pool, text, persona_uid, top_k).strategy == MatchStrategy::Exact,
{
}

/// Every result that has a label is given by it, with its score, in order.
pub proof fn law_results_are_labelled(results: Seq<(RefView, Real)>)
    ensures
        labelled(results) == results.filter(|x: (RefView, Real)| !(x.0 is Pool)).map_values(
            |x: (RefView, Real)| (x.0.label()->0, x.1),
        ),
    decreases results.len(),
{
    reveal(Seq::filter);
    let keep = |x: (RefView, Real)| !(x.0 is Pool);
    let f = |x: (RefView, Real)| (x.0.label()->0, x.1);
    if results.len() > 0 {
        law_results_are_labelled(results.drop_last());
        let front = results.drop_last().filter(keep);
        if keep(results.last()) {
            assert(front.push(results.last()).map_values(f) =~= front.map_values(f).push(
                f(results.last()),
            ));
        }
    } else {
        assert(results.filter(keep).map_values(f) =~= Seq::<(Seq<char>, Real)>::empty());
    }
}

/// The documents of summaries and of events, the keywords of entries and the labels of results
/// are those of each of them, in order.
pub proof fn law_lists_are_seen(
    a: Seq<L1DocView>,
    b: Seq<L2DocView>,
    e: Seq<EntryView>,
    r: Seq<(String, Real)>,
)
    ensures
        l1_docs(a).len() == a.len() && l2_docs(b).len() == b.len(),
        forall|i: int| 0 <= i < a.len() ==> #[trigger] l1_docs(a)[i] == l1_doc(a[i]),
        forall|i: int| 0 <= i < b.len() ==> #[trigger] l2_docs(b)[i] == l2_doc(b[i]),
        entry_tokens(e).len() == e.len() && label_views(r).len() == r.len(),
        forall|i: int| 0 <= i < e.len() ==> #[trigger] entry_tokens(e)[i] == e[i].token,
        forall|i: int| 0 <= i < r.len() ==> #[trigger] label_views(r)[i] == (r[i].0@, r[i].1),
{
}

/// A text is looked for where it is not blank, something is asked for, there are documents, and
/// it has keywords.
pub proof fn law_when_a_text_is_looked_for(
    pool: &KeywordPoolSnapshot,
    text: &str,
    persona_uid: Option<&str>,
    top_k: usize,
    doc_count: usize,
    r: Option<KeywordQuery>,
)
    requires
        call_ensures(text_query, (pool, text, persona_uid, top_k, doc_count), r),
    ensures
        r is Some <==> trim(text@).len() > 0 && top_k > 0 && doc_count > 0 && text_keywords(
            pool.words(),
            pool.resolutions(),
            text@,
        ).len() > 0,
        r matches Some(q) ==> q.keywords@ == text_keywords(pool.words(), pool.resolutions(), text@)
            && q.top_k == top_k && q.strategy == MatchStrategy::Exact && opt_text(q.persona_uid)
            == (match persona_uid {
            Some(p) => Some(p@),
            None => None,
        }),
{
    assert(blank(text@) <==> trim(text@).len() == 0);
}

} // verus!
