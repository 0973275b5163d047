//! Searching in three steps: by the keywords themselves, by parts of keywords, and by
//! keywords of related meaning.

use vstd::prelude::*;

use crate::binary64::Real;
use crate::keyword::index::{code_points, is_answer, is_vocabulary, lemma_code_points_order,
    parsed_keywords, push_code_points, refs_unique, result_views, without_ids, without_ref, DocView,
    KeywordIndex, KeywordQuery, KeywordRef, MatchStrategy, QueryView, RefView, ScoringStrategy};
use crate::binary64::unit_clamped;
use crate::keyword::token::{copy_tokens, distinct, token_texts, KeywordSet, KeywordToken};
use crate::order::{key_seqs, ordered_by, stable_order};
use crate::text::{append_chars, chars_of, copy_text, decimal, decimal_chars, lex_lt, string_of,
    texts};

verus! {

/// Which of the steps of a search are taken.
#[derive(Debug, Clone, Copy, PartialEq, Eq, Structural)]
pub struct CompositeIndexConfig {
    /// Whether a search that finds too little goes on by parts of keywords.
    pub enable_substring_fallback: bool,
    /// Whether a search that still finds too little goes on by related keywords.
    pub enable_semantic_fallback: bool,
    /// The number of related keywords that each keyword of the query brings at most.
    pub semantic_top_k: usize,
}

impl Default for CompositeIndexConfig {
    fn default() -> (r: Self)
        ensures
            r.enable_substring_fallback,
            r.enable_semantic_fallback,
            r.semantic_top_k == 3,
    {
        CompositeIndexConfig {
            enable_substring_fallback: true,
            enable_semantic_fallback: true,
            semantic_top_k: 3,
        }
    }
}

/// Why a semantic layer cannot be built.
#[derive(Debug, Clone, Copy, PartialEq, Eq, Structural)]
pub enum FuzzyError {
    /// There are no terms.
    EmptyDictionary,
    /// The number of vectors is not that of the terms.
    CountMismatch { got: usize, expected: usize },
    /// The vectors are empty or of different lengths; the length of the first is given.
    BadDimension { dim: usize },
}

impl FuzzyError {
    /// The message shown for the error.
    pub open spec fn text(self) -> Seq<char> {
        match self {
            FuzzyError::EmptyDictionary =>
                "FuzzyKeywordIndex 构建：词典为空，无法构建词向量索引"@,
            FuzzyError::CountMismatch { got, expected } =>
                "FuzzyKeywordIndex 构建：embedder 返回 "@ + decimal(got as nat)
                    + " 条向量，期望 "@ + decimal(expected as nat) + " 条"@,
            FuzzyError::BadDimension { dim } =>
                "FuzzyKeywordIndex 构建：向量维度非法（dim="@ + decimal(dim as nat) + "）"@,
        }
    }

    /// The message shown for the error.
    pub fn message(&self) -> (r: String)
        ensures
            r@ == self.text(),
    {
        match self {
            FuzzyError::EmptyDictionary => copy_text(
                "FuzzyKeywordIndex 构建：词典为空，无法构建词向量索引",
            ),
            FuzzyError::CountMismatch { got, expected } => {
                let mut out = chars_of("FuzzyKeywordIndex 构建：embedder 返回 ");
                append_chars(&mut out, &decimal_chars(*got as u64));
                append_chars(&mut out, &chars_of(" 条向量，期望 "));
                append_chars(&mut out, &decimal_chars(*expected as u64));
                append_chars(&mut out, &chars_of(" 条"));
                string_of(&out)
            },
            FuzzyError::BadDimension { dim } => {
                let mut out = chars_of("FuzzyKeywordIndex 构建：向量维度非法（dim=");
                append_chars(&mut out, &decimal_chars(*dim as u64));
                append_chars(&mut out, &chars_of("）"));
                string_of(&out)
            },
        }
    }
}

/// The bit pattern of the least similarity that counts as related, seven tenths.
pub const SIMILARITY_THRESHOLD_BITS: u64 = 0x3fe6_6666_6666_6666;

/// Terms with their vectors. A vector is held by the bit patterns of its components.
#[derive(Debug)]
pub struct FuzzyKeywordIndex {
    terms: Vec<KeywordToken>,
    vectors: Vec<Vec<u32>>,
}

/// The vectors of a vector of vectors.
pub open spec fn vector_seqs(v: Seq<Vec<u32>>) -> Seq<Seq<u32>> {
    v.map_values(|x: Vec<u32>| x@)
}

/// Why vectors are refused for so many terms, if they are.
pub open spec fn fuzzy_error(terms: nat, vectors: Seq<Seq<u32>>) -> Option<FuzzyError> {
    if terms == 0 {
        Some(FuzzyError::EmptyDictionary)
    } else if vectors.len() != terms {
        Some(FuzzyError::CountMismatch { got: vectors.len() as usize, expected: terms as usize })
    } else if vectors[0].len() == 0 || exists|i: int|
        0 <= i < vectors.len() && (#[trigger] vectors[i]).len() != vectors[0].len() {
        Some(FuzzyError::BadDimension { dim: vectors[0].len() as usize })
    } else {
        None
    }
}

/// The related terms: not the query term itself, and similar enough.
pub open spec fn related(terms: Seq<Seq<char>>, sims: Seq<Real>, query: Seq<char>) -> Seq<int>
    decreases terms.len(),
{
    if terms.len() == 0 {
        Seq::empty()
    } else {
        let n = terms.len() - 1;
        let front = related(terms.drop_last(), sims, query);
        if terms[n] != query && (Real { bits: SIMILARITY_THRESHOLD_BITS }).le(sims[n]) {
            front.push(n)
        } else {
            front
        }
    }
}

/// The key by which related terms are ordered: more similar ones first, then by text.
pub open spec fn related_key(terms: Seq<Seq<char>>, sims: Seq<Real>, i: int) -> Seq<i128> {
    seq![(-sims[i].rank()) as i128] + code_points(terms[i])
}

/// The keys of a sequence of terms.
pub open spec fn related_keys(terms: Seq<Seq<char>>, sims: Seq<Real>, is: Seq<int>) -> Seq<
    Seq<i128>,
> {
    is.map_values(|i: int| related_key(terms, sims, i))
}

/// Whether `r` is the expansion of a query term: the related terms in the order of their
/// keys, at most `top_k`.
pub open spec fn is_expansion(
    terms: Seq<Seq<char>>,
    sims: Seq<Real>,
    query: Seq<char>,
    top_k: usize,
    r: Seq<(Seq<char>, Real)>,
) -> bool {
    let is = related(terms, sims, query);
    exists|p: Seq<usize>| #[trigger]
        ordered_by(p, related_keys(terms, sims, is)) && r == Seq::new(
            if top_k < is.len() {
                top_k as nat
            } else {
                is.len()
            },
            |j: int| (terms[is[p[j] as int]], sims[is[p[j] as int]]),
        )
}

/// What a sequence of expansions says.
pub open spec fn expansion_views(r: Seq<(KeywordToken, Real)>) -> Seq<(Seq<char>, Real)> {
    r.map_values(|x: (KeywordToken, Real)| (x.0@, x.1))
}

/// The keywords of expansions, one expansion after the other.
pub open spec fn gathered(parts: Seq<Seq<(Seq<char>, Real)>>) -> Seq<Seq<char>>
    decreases parts.len(),
{
    if parts.len() == 0 {
        Seq::empty()
    } else {
        gathered(parts.drop_last()) + parts.last().map_values(|x: (Seq<char>, Real)| x.0)
    }
}

/// Whether similarities are known for each of so many query keywords, or not at all, and in
/// the first case for each of so many terms.
pub open spec fn similarities_fit(
    sims: Seq<Option<Vec<Real>>>,
    keywords: nat,
    terms: nat,
) -> bool {
    &&& sims.len() == keywords
    &&& forall|i: int|
        0 <= i < sims.len() ==> ((#[trigger] sims[i]) matches Some(v) ==> v@.len() == terms)
}

/// Whether `parts` holds the expansion of each query keyword; one of unknown similarities
/// has none.
pub open spec fn are_expansions(
    terms: Seq<Seq<char>>,
    sims: Seq<Option<Vec<Real>>>,
    keywords: Seq<Seq<char>>,
    top_k: usize,
    parts: Seq<Seq<(Seq<char>, Real)>>,
) -> bool {
    &&& parts.len() == keywords.len()
    &&& forall|i: int|
        0 <= i < parts.len() ==> match sims[i] {
            Some(v) => is_expansion(terms, v@, keywords[i], top_k, #[trigger] parts[i]),
            None => parts[i].len() == 0,
        }
}

proof fn lemma_related_bound(terms: Seq<Seq<char>>, sims: Seq<Real>, query: Seq<char>)
    ensures
        forall|k: int|
            0 <= k < related(terms, sims, query).len() ==> 0 <= (#[trigger] related(
                terms,
                sims,
                query,
            )[k]) < terms.len(),
    decreases terms.len(),
{
    if terms.len() > 0 {
        lemma_related_bound(terms.drop_last(), sims, query);
        let f = related(terms.drop_last(), sims, query);
        let g = related(terms, sims, query);
        assert forall|k: int| 0 <= k < g.len() implies 0 <= (#[trigger] g[k]) < terms.len() by {
            if k < f.len() {
                assert(g[k] == f[k]);
            }
        }
    }
}

impl FuzzyKeywordIndex {
    /// The terms.
    pub closed spec fn terms(&self) -> Seq<Seq<char>> {
        token_texts(self.terms@)
    }

    /// The vectors of the terms.
    pub closed spec fn vectors(&self) -> Seq<Seq<u32>> {
        vector_seqs(self.vectors@)
    }

    #[verifier::type_invariant]
    spec fn inv(self) -> bool {
        fuzzy_error(self.terms@.len(), vector_seqs(self.vectors@)) is None
    }

    /// The texts whose vectors are needed for these terms.
    pub fn texts_to_embed(terms: &Vec<KeywordToken>) -> (r: Result<Vec<String>, FuzzyError>)
        ensures
            match r {
                Ok(v) => terms@.len() > 0 && texts(v@) == token_texts(terms@),
                Err(e) => terms@.len() == 0 && e == FuzzyError::EmptyDictionary,
            },
    {
        if terms.len() == 0 {
            return Err(FuzzyError::EmptyDictionary);
        }
        let mut out: Vec<String> = Vec::new();
        let mut i: usize = 0;
        while i < terms.len()
            invariant
                i <= terms@.len(),
                texts(out@) == token_texts(terms@).take(i as int),
            decreases terms@.len() - i,
        {
            let ghost before = texts(out@);
            out.push(copy_text(terms[i].as_str()));
            i += 1;
            assert(texts(out@) =~= before.push(terms@[i - 1]@));
            assert(token_texts(terms@).take(i as int) =~= token_texts(terms@).take(i - 1).push(
                terms@[i - 1]@,
            ));
        }
        assert(token_texts(terms@).take(i as int) =~= token_texts(terms@));
        Ok(out)
    }

    /// The semantic layer of the terms with the given vectors.
    pub fn build(terms: Vec<KeywordToken>, vectors: Vec<Vec<u32>>) -> (r: Result<Self, FuzzyError>)
        ensures
            match r {
                Ok(f) => {
                    &&& fuzzy_error(terms@.len(), vector_seqs(vectors@)) is None
                    &&& f.terms() == token_texts(terms@)
                    &&& f.vectors() == vector_seqs(vectors@)
                },
                Err(e) => fuzzy_error(terms@.len(), vector_seqs(vectors@)) == Some(e),
            },
    {
        let ghost vs = vector_seqs(vectors@);
        if terms.len() == 0 {
            return Err(FuzzyError::EmptyDictionary);
        }
        if vectors.len() != terms.len() {
            return Err(FuzzyError::CountMismatch { got: vectors.len(), expected: terms.len() });
        }
        let dim: usize = vectors[0].len();
        assert(vs[0] == vectors@[0]@);
        if dim == 0 {
            return Err(FuzzyError::BadDimension { dim });
        }
        let mut i: usize = 0;
        while i < vectors.len()
            invariant
                i <= vectors@.len(),
                vs == vector_seqs(vectors@),
                vs.len() == terms@.len(),
                vs.len() > 0,
                dim == vs[0].len(),
                forall|j: int| 0 <= j < i ==> (#[trigger] vs[j]).len() == dim,
            decreases vectors@.len() - i,
        {
            assert(vs[i as int] == vectors@[i as int]@);
            if vectors[i].len() != dim {
                return Err(FuzzyError::BadDimension { dim });
            }
            i += 1;
        }
        Ok(FuzzyKeywordIndex { terms, vectors })
    }

    /// Whether the layer can be used; a layer that was built can.
    pub fn is_ready(&self) -> (r: bool)
        ensures
            r,
    {
        true
    }

    /// The number of terms.
    pub fn len(&self) -> (r: usize)
        ensures
            r == self.terms().len(),
            r > 0,
    {
        proof {
            use_type_invariant(self);
        }
        self.terms.len()
    }

    /// Whether there are no terms; a layer that was built has some.
    pub fn is_empty(&self) -> (r: bool)
        ensures
            r == (self.terms().len() == 0),
            !r,
    {
        proof {
            use_type_invariant(self);
        }
        self.terms.len() == 0
    }

    /// The length of the vectors.
    pub fn dim(&self) -> (r: usize)
        ensures
            r > 0,
            forall|i: int| 0 <= i < self.vectors().len() ==> (#[trigger] self.vectors()[i]).len() == r,
    {
        proof {
            use_type_invariant(self);
            assert(self.vectors()[0] == self.vectors@[0]@);
        }
        self.vectors[0].len()
    }

    /// The vectors, for measuring similarities.
    pub fn vector_list(&self) -> (r: &Vec<Vec<u32>>)
        ensures
            vector_seqs(r@) == self.vectors(),
            r@.len() == self.terms().len(),
    {
        proof {
            use_type_invariant(self);
        }
        &self.vectors
    }

    /// The terms related to `query`, where `sims` are the similarities of the terms with it.
    pub fn expand(&self, query: &KeywordToken, sims: &Vec<Real>, top_k: usize) -> (r: Vec<
        (KeywordToken, Real),
    >)
        requires
            sims@.len() == self.terms().len(),
        ensures
            is_expansion(self.terms(), sims@, query@, top_k, expansion_views(r@)),
    {
        let ghost ts = self.terms();
        let threshold = Real { bits: SIMILARITY_THRESHOLD_BITS };
        let mut kept: Vec<usize> = Vec::new();
        let mut keys: Vec<Vec<i128>> = Vec::new();
        let mut i: usize = 0;
        let ghost is0 = Seq::<int>::empty();
        assert(ts.take(0) =~= Seq::<Seq<char>>::empty());
        assert(kept@.map_values(|k: usize| k as int) =~= related(ts.take(0), sims@, query@));
        assert(key_seqs(keys@) =~= related_keys(ts, sims@, related(ts.take(0), sims@, query@)));
        while i < self.terms.len()
            invariant
                i <= self.terms@.len(),
                ts == self.terms(),
                ts.len() == sims@.len(),
                threshold == (Real { bits: SIMILARITY_THRESHOLD_BITS }),
                kept@.map_values(|k: usize| k as int) == related(
                    ts.take(i as int),
                    sims@,
                    query@,
                ),
                key_seqs(keys@) == related_keys(
                    ts,
                    sims@,
                    related(ts.take(i as int), sims@, query@),
                ),
            decreases self.terms@.len() - i,
        {
            let t = &self.terms[i];
            let ghost before = related(ts.take(i as int), sims@, query@);
            proof {
                assert(ts.take(i + 1).drop_last() =~= ts.take(i as int));
                assert(ts.take(i + 1)[i as int] == t@);
                assert(ts[i as int] == t@);
            }
            if !t.same(query) && threshold.is_at_most(&sims[i]) {
                let mut key: Vec<i128> = Vec::new();
                key.push(sims[i].negated_rank());
                push_code_points(&mut key, &chars_of(t.as_str()));
                assert(key@ =~= related_key(ts, sims@, i as int));
                let ghost kv = key@;
                let ghost old_keys = key_seqs(keys@);
                let ghost old_kept = kept@.map_values(|k: usize| k as int);
                keys.push(key);
                kept.push(i);
                assert(key_seqs(keys@) =~= old_keys.push(kv));
                assert(kept@.map_values(|k: usize| k as int) =~= old_kept.push(i as int));
                assert(related_keys(ts, sims@, before.push(i as int)) =~= related_keys(
                    ts,
                    sims@,
                    before,
                ).push(kv));
            }
            i += 1;
        }
        let ghost is = related(ts, sims@, query@);
        assert(ts.take(i as int) =~= ts);
        let p = stable_order(&keys);
        proof {
            lemma_related_bound(ts, sims@, query@);
        }
        let mut n: usize = kept.len();
        if top_k < n {
            n = top_k;
        }
        let ghost goal: Seq<(Seq<char>, Real)> = Seq::new(
            if top_k < is.len() {
                top_k as nat
            } else {
                is.len()
            },
            |j: int| (ts[is[p@[j] as int]], sims@[is[p@[j] as int]]),
        );
        let mut out: Vec<(KeywordToken, Real)> = Vec::new();
        let mut j: usize = 0;
        assert(expansion_views(out@) =~= goal.take(0));
        while j < n
            invariant
                j <= n,
                n == goal.len(),
                n <= kept@.len(),
                ts == self.terms(),
                ts.len() == sims@.len(),
                is == kept@.map_values(|k: usize| k as int),
                p@.len() == kept@.len(),
                forall|m: int| 0 <= m < p@.len() ==> 0 <= #[trigger] p@[m] < kept@.len(),
                forall|m: int| 0 <= m < is.len() ==> 0 <= (#[trigger] is[m]) < ts.len(),
                goal == Seq::new(
                    if top_k < is.len() {
                        top_k as nat
                    } else {
                        is.len()
                    },
                    |j: int| (ts[is[p@[j] as int]], sims@[is[p@[j] as int]]),
                ),
                expansion_views(out@) == goal.take(j as int),
            decreases n - j,
        {
            let k: usize = kept[p[j]];
            assert(is[p@[j as int] as int] == k);
            let t = self.terms[k].clone();
            let ghost before = expansion_views(out@);
            out.push((t, sims[k]));
            assert(expansion_views(out@) =~= before.push(goal[j as int]));
            j += 1;
            assert(goal.take(j as int) =~= goal.take(j - 1).push(goal[j - 1]));
        }
        assert(goal.take(j as int) =~= goal);
        assert(ordered_by(p@, related_keys(ts, sims@, is)));
        out
    }
}

/// A copy of a vector.
fn copy_vector(v: &Vec<u32>) -> (r: Vec<u32>)
    ensures
        r@ == v@,
{
    let mut out: Vec<u32> = Vec::new();
    let mut i: usize = 0;
    while i < v.len()
        invariant
            i <= v@.len(),
            out@ == v@.take(i as int),
        decreases v@.len() - i,
    {
        out.push(v[i]);
        i += 1;
        assert(v@.take(i as int) =~= v@.take(i - 1).push(v@[i - 1]));
    }
    assert(v@.take(i as int) =~= v@);
    out
}

/// An expansion holds related terms only: none is the query term, and each is similar
/// enough.
pub proof fn law_expansion_is_related(
    terms: Seq<Seq<char>>,
    sims: Seq<Real>,
    query: Seq<char>,
    top_k: usize,
    r: Seq<(Seq<char>, Real)>,
)
    requires
        is_expansion(terms, sims, query, top_k, r),
    ensures
        r.len() <= top_k,
        forall|j: int|
            0 <= j < r.len() ==> (#[trigger] r[j]).0 != query && (Real {
                bits: SIMILARITY_THRESHOLD_BITS,
            }).le(r[j].1),
{
    let is = related(terms, sims, query);
    lemma_related(terms, sims, query);
    let p = choose|p: Seq<usize>| #[trigger]
        ordered_by(p, related_keys(terms, sims, is)) && r == Seq::new(
            if top_k < is.len() {
                top_k as nat
            } else {
                is.len()
            },
            |j: int| (terms[is[p[j] as int]], sims[is[p[j] as int]]),
        );
    assert forall|j: int| 0 <= j < r.len() implies (#[trigger] r[j]).0 != query && (Real {
        bits: SIMILARITY_THRESHOLD_BITS,
    }).le(r[j].1) by {
        let k = is[p[j] as int];
        assert(terms[k] != query);
    }
}

proof fn lemma_related(terms: Seq<Seq<char>>, sims: Seq<Real>, query: Seq<char>)
    ensures
        forall|k: int|
            0 <= k < related(terms, sims, query).len() ==> {
                let i = #[trigger] related(terms, sims, query)[k];
                terms[i] != query && (Real { bits: SIMILARITY_THRESHOLD_BITS }).le(sims[i])
            },
    decreases terms.len(),
{
    if terms.len() > 0 {
        let rest = terms.drop_last();
        lemma_related(rest, sims, query);
        lemma_related_bound(rest, sims, query);
        let f = related(rest, sims, query);
        let g = related(terms, sims, query);
        assert forall|k: int| 0 <= k < g.len() implies {
            let i = #[trigger] g[k];
            terms[i] != query && (Real { bits: SIMILARITY_THRESHOLD_BITS }).le(sims[i])
        } by {
            if k < f.len() {
                assert(g[k] == f[k]);
                assert(rest[f[k]] == terms[f[k]]);
            }
        }
    }
}

/// Whether a document is among the results.
pub open spec fn has_result(results: Seq<(RefView, Real)>, reff: RefView) -> bool {
    exists|i: int| 0 <= i < results.len() && (#[trigger] results[i]).0 == reff
}

/// `results`, continued by the documents of `extra` that are not yet among them, as long as
/// there are less than `needed`.
pub open spec fn appended(
    results: Seq<(RefView, Real)>,
    extra: Seq<(RefView, Real)>,
    needed: usize,
) -> Seq<(RefView, Real)>
    decreases extra.len(),
{
    if extra.len() == 0 || results.len() >= needed {
        results
    } else if has_result(results, extra[0].0) {
        appended(results, extra.drop_first(), needed)
    } else {
        appended(results.push(extra[0]), extra.drop_first(), needed)
    }
}

/// Continues `results` by what is new in `extra`, up to `needed`.
fn append_unique(
    results: &mut Vec<(KeywordRef, Real)>,
    extra: Vec<(KeywordRef, Real)>,
    needed: usize,
)
    ensures
        result_views(final(results)@) == appended(
            result_views(old(results)@),
            result_views(extra@),
            needed,
        ),
{
    let ghost goal = appended(result_views(results@), result_views(extra@), needed);
    let ghost ev = result_views(extra@);
    let mut i: usize = 0;
    assert(ev.skip(0) =~= ev);
    while i < extra.len() && results.len() < needed
        invariant
            i <= extra@.len(),
            ev == result_views(extra@),
            goal == appended(result_views(results@), ev.skip(i as int), needed),
        decreases extra@.len() - i,
    {
        let known = find_result(results, &extra[i].0);
        assert(ev.skip(i as int).drop_first() =~= ev.skip(i + 1));
        assert(ev.skip(i as int)[0] == ev[i as int]);
        if !known {
            let ghost before = result_views(results@);
            results.push((extra[i].0.clone(), extra[i].1));
            assert(result_views(results@) =~= before.push(ev[i as int]));
        }
        i += 1;
    }
    assert(result_views(results@).len() == results@.len());
}

/// Whether a document is among the results.
fn find_result(results: &Vec<(KeywordRef, Real)>, reff: &KeywordRef) -> (r: bool)
    ensures
        r == has_result(result_views(results@), reff@),
{
    let mut i: usize = 0;
    while i < results.len()
        invariant
            i <= results@.len(),
            forall|j: int| 0 <= j < i ==> (#[trigger] results@[j]).0@ != reff@,
        decreases results@.len() - i,
    {
        if results[i].0.same(reff) {
            assert(result_views(results@)[i as int].0 == reff@);
            return true;
        }
        i += 1;
    }
    assert forall|j: int| 0 <= j < result_views(results@).len() implies (
    #[trigger] result_views(results@)[j]).0 != reff@ by {
        assert(result_views(results@)[j] == (results@[j].0@, results@[j].1));
    }
    false
}

/// The exact search for other keywords.
pub open spec fn reworded(query: QueryView, keywords: Seq<Seq<char>>) -> QueryView {
    QueryView { keywords, strategy: MatchStrategy::Exact, ..query }
}

/// Whether `r` is what the steps by keywords and by parts give: what is found by
/// keyword comes first, and what is found by part fills up, if there is need and it is
/// allowed.
pub open spec fn is_literal_answer<S: ScoringStrategy>(
    scorer: &S,
    now_ms: i64,
    docs: Seq<DocView>,
    v: Seq<Seq<char>>,
    config: CompositeIndexConfig,
    query: QueryView,
    r: Seq<(RefView, Real)>,
) -> bool {
    if query.keywords.len() == 0 || query.top_k == 0 {
        r == Seq::<(RefView, Real)>::empty()
    } else {
        let by_word = QueryView { strategy: MatchStrategy::Exact, ..query };
        let by_part = QueryView { strategy: MatchStrategy::Substring, ..query };
        exists|exact: Seq<(RefView, Real)>|
            {
                &&& #[trigger] is_answer(scorer, now_ms, docs, v, by_word, exact)
                &&& if exact.len() < query.top_k && config.enable_substring_fallback {
                    exists|extra: Seq<(RefView, Real)>| #[trigger]
                        is_answer(scorer, now_ms, docs, v, by_part, extra) && r == appended(
                            exact,
                            extra,
                            query.top_k,
                        )
                } else {
                    r == exact
                }
            }
    }
}

/// Whether a search that has found so much goes on by related keywords, where it can.
pub open spec fn expansion_wanted(
    config: CompositeIndexConfig,
    query: QueryView,
    found: nat,
) -> bool {
    query.keywords.len() > 0 && found < query.top_k && config.enable_semantic_fallback
}

/// Whether `r` is what the step by related keywords gives: what was found before, filled up
/// by what is found under the keywords that are related to those of the query.
pub open spec fn is_expanded_answer<S: ScoringStrategy>(
    scorer: &S,
    now_ms: i64,
    docs: Seq<DocView>,
    v: Seq<Seq<char>>,
    config: CompositeIndexConfig,
    terms: Seq<Seq<char>>,
    sims: Seq<Option<Vec<Real>>>,
    query: QueryView,
    found: Seq<(RefView, Real)>,
    r: Seq<(RefView, Real)>,
) -> bool {
    exists|parts: Seq<Seq<(Seq<char>, Real)>>|
        {
            &&& #[trigger] are_expansions(
                terms,
                sims,
                query.keywords,
                config.semantic_top_k,
                parts,
            )
            &&& if gathered(parts).len() == 0 {
                r == found
            } else {
                exists|extra: Seq<(RefView, Real)>| #[trigger]
                    is_answer(
                        scorer,
                        now_ms,
                        docs,
                        v,
                        reworded(query, distinct(gathered(parts))),
                        extra,
                    ) && r == appended(found, extra, query.top_k)
            }
        }
}

impl Clone for FuzzyKeywordIndex {
    fn clone(&self) -> (r: Self)
        ensures
            r.terms() == self.terms(),
            r.vectors() == self.vectors(),
    {
        proof {
            use_type_invariant(self);
        }
        let terms = copy_tokens(&self.terms);
        let mut vectors: Vec<Vec<u32>> = Vec::new();
        let ghost all = vector_seqs(self.vectors@);
        let mut i: usize = 0;
        while i < self.vectors.len()
            invariant
                i <= self.vectors@.len(),
                all == vector_seqs(self.vectors@),
                vector_seqs(vectors@) == all.take(i as int),
            decreases self.vectors@.len() - i,
        {
            let ghost before = vector_seqs(vectors@);
            let v = copy_vector(&self.vectors[i]);
            vectors.push(v);
            assert(vector_seqs(vectors@) =~= before.push(all[i as int]));
            i += 1;
            assert(all.take(i as int) =~= all.take(i - 1).push(all[i - 1]));
        }
        assert(all.take(i as int) =~= all);
        assert(terms@.len() == token_texts(terms@).len());
        assert(self.terms@.len() == token_texts(self.terms@).len());
        FuzzyKeywordIndex { terms, vectors }
    }
}

/// The keyword index with its configuration and its optional semantic layer.
#[derive(Debug)]
pub struct CompositeIndex {
    exact: KeywordIndex,
    fuzzy: Option<FuzzyKeywordIndex>,
    config: CompositeIndexConfig,
}

/// Whether two semantic layers hold the same terms and vectors, or both are missing.
pub open spec fn same_layer(a: Option<FuzzyKeywordIndex>, b: Option<FuzzyKeywordIndex>) -> bool {
    match (a, b) {
        (Some(x), Some(y)) => x.terms() == y.terms() && x.vectors() == y.vectors(),
        (None, None) => true,
        _ => false,
    }
}

impl Clone for CompositeIndex {
    fn clone(&self) -> (r: Self)
        ensures
            self.wf() ==> r.wf(),
            r.docs() == self.docs(),
            r.settings() == self.settings(),
            same_layer(r.layer(), self.layer()),
    {
        let fuzzy = match &self.fuzzy {
            Some(f) => Some(f.clone()),
            None => None,
        };
        CompositeIndex { exact: self.exact.clone(), fuzzy, config: self.config }
    }
}

impl CompositeIndex {
    /// The documents.
    pub closed spec fn docs(&self) -> Seq<DocView> {
        self.exact@
    }

    /// The keywords of the documents, in order.
    pub closed spec fn vocabulary(&self) -> Seq<Seq<char>> {
        self.exact.vocabulary()
    }

    /// The semantic layer.
    pub closed spec fn layer(&self) -> Option<FuzzyKeywordIndex> {
        self.fuzzy
    }

    /// The configuration.
    pub closed spec fn settings(&self) -> CompositeIndexConfig {
        self.config
    }

    /// Whether the keyword index is well formed.
    pub closed spec fn wf(&self) -> bool {
        self.exact.wf()
    }

    /// The documents have distinct references, none of them a dictionary entry, and the
    /// vocabulary lists their keywords, sorted and each once.
    pub proof fn law_wf(&self)
        requires
            self.wf(),
        ensures
            refs_unique(self.docs()),
            forall|i: int| 0 <= i < self.docs().len() ==> !((#[trigger] self.docs()[i]).reff is Pool),
            is_vocabulary(self.vocabulary(), self.docs()),
    {
        self.exact.law_wf();
    }

    /// An index without documents and without a semantic layer.
    pub fn new(config: CompositeIndexConfig) -> (r: Self)
        ensures
            r.wf(),
            r.docs() == Seq::<DocView>::empty(),
            r.layer() is None,
            r.settings() == config,
    {
        CompositeIndex { exact: KeywordIndex::new(), fuzzy: None, config }
    }

    /// Sets the semantic layer.
    pub fn set_fuzzy(&mut self, fuzzy: Option<FuzzyKeywordIndex>)
        requires
            old(self).wf(),
        ensures
            final(self).wf(),
            final(self).docs() == old(self).docs(),
            final(self).settings() == old(self).settings(),
            final(self).layer() == fuzzy,
    {
        self.fuzzy = fuzzy;
    }

    /// The semantic layer.
    pub fn fuzzy(&self) -> (r: Option<&FuzzyKeywordIndex>)
        ensures
            match r {
                Some(f) => self.layer() == Some(*f),
                None => self.layer() is None,
            },
    {
        match &self.fuzzy {
            Some(f) => Some(f),
            None => None,
        }
    }

    /// The configuration.
    pub fn config(&self) -> (r: &CompositeIndexConfig)
        ensures
            *r == self.settings(),
    {
        &self.config
    }

    /// Enters a document; one with the same reference is replaced.
    pub fn index(&mut self, reff: KeywordRef, keywords: KeywordSet, salience: Real, created_at: i64)
        requires
            old(self).wf(),
            !(reff@ is Pool),
            old(self).docs().len() < usize::MAX,
        ensures
            final(self).wf(),
            final(self).docs() == without_ref(old(self).docs(), reff@).push(
                DocView {
                    reff: reff@,
                    keywords: keywords@,
                    salience: unit_clamped(salience),
                    created_at,
                },
            ),
            final(self).layer() == old(self).layer(),
            final(self).settings() == old(self).settings(),
    {
        self.exact.index(reff, keywords, salience, created_at);
    }

    /// Enters a document whose keywords stand between commas; gives the number of documents.
    pub fn index_parsed(
        &mut self,
        reff: KeywordRef,
        raw_keywords: Option<&str>,
        salience: Real,
        created_at: i64,
    ) -> (r: usize)
        requires
            old(self).wf(),
            !(reff@ is Pool),
            old(self).docs().len() < usize::MAX,
        ensures
            final(self).wf(),
            final(self).docs() == without_ref(old(self).docs(), reff@).push(
                DocView {
                    reff: reff@,
                    keywords: parsed_keywords(
                        match raw_keywords {
                            Some(s) => Some(s@),
                            None => None,
                        },
                    ),
                    salience: unit_clamped(salience),
                    created_at,
                },
            ),
            r == final(self).docs().len(),
            final(self).layer() == old(self).layer(),
            final(self).settings() == old(self).settings(),
    {
        self.exact.index_parsed(reff, raw_keywords, salience, created_at)
    }

    /// Takes a document out; false where there is none with this reference.
    pub fn remove(&mut self, reff: &KeywordRef) -> (r: bool)
        requires
            old(self).wf(),
        ensures
            final(self).wf(),
            final(self).docs() == without_ref(old(self).docs(), reff@),
            r == exists|i: int|
                0 <= i < old(self).docs().len() && (#[trigger] old(self).docs()[i]).reff == reff@,
            final(self).layer() == old(self).layer(),
            final(self).settings() == old(self).settings(),
    {
        self.exact.remove(reff)
    }

    /// Takes out the documents with the given identifiers; gives their number.
    pub fn remove_doc_batch(&mut self, l1_ids: &[u128], l2_ids: &[i64]) -> (r: usize)
        requires
            old(self).wf(),
        ensures
            final(self).wf(),
            final(self).docs() == without_ids(old(self).docs(), l1_ids@, l2_ids@),
            r == old(self).docs().len() - final(self).docs().len(),
            final(self).layer() == old(self).layer(),
            final(self).settings() == old(self).settings(),
    {
        self.exact.remove_doc_batch(l1_ids, l2_ids)
    }

    /// Takes out all documents and the semantic layer.
    pub fn clear(&mut self)
        ensures
            final(self).wf(),
            final(self).docs() == Seq::<DocView>::empty(),
            final(self).layer() is None,
            final(self).settings() == old(self).settings(),
    {
        self.exact.clear();
        self.fuzzy = None;
    }

    /// The number of documents.
    pub fn doc_count(&self) -> (r: usize)
        ensures
            r == self.docs().len(),
    {
        self.exact.doc_count()
    }

    /// One search with the keywords of `query`.
    fn search<S: ScoringStrategy>(
        &self,
        keywords: &KeywordSet,
        query: &KeywordQuery,
        strategy: MatchStrategy,
        now_ms: i64,
        scorer: &S,
    ) -> (r: Vec<(KeywordRef, Real)>)
        requires
            self.wf(),
        ensures
            is_answer(
                scorer,
                now_ms,
                self.docs(),
                self.vocabulary(),
                (QueryView { keywords: keywords@, strategy, ..query@ }),
                result_views(r@),
            ),
    {
        let persona_uid = match &query.persona_uid {
            Some(p) => Some(copy_text(p.as_str())),
            None => None,
        };
        let q = KeywordQuery {
            keywords: keywords.clone(),
            persona_uid,
            top_k: query.top_k,
            strategy,
        };
        self.exact.query_with_scorer(&q, now_ms, scorer)
    }

    /// The search by keywords and, where that finds too little, by parts of keywords.
    pub fn literal_query<S: ScoringStrategy>(
        &self,
        query: &KeywordQuery,
        now_ms: i64,
        scorer: &S,
    ) -> (r: Vec<(KeywordRef, Real)>)
        requires
            self.wf(),
        ensures
            is_literal_answer(
                scorer,
                now_ms,
                self.docs(),
                self.vocabulary(),
                self.settings(),
                query@,
                result_views(r@),
            ),
    {
        let needed: usize = query.top_k;
        if query.keywords.is_empty() || needed == 0 {
            let none: Vec<(KeywordRef, Real)> = Vec::new();
            assert(result_views(none@) =~= Seq::<(RefView, Real)>::empty());
            return none;
        }
        let mut results = self.search(&query.keywords, query, MatchStrategy::Exact, now_ms, scorer);
        let ghost exact = result_views(results@);
        assert(exact.len() == results@.len());
        if results.len() < needed && self.config.enable_substring_fallback {
            let extra = self.search(
                &query.keywords,
                query,
                MatchStrategy::Substring,
                now_ms,
                scorer,
            );
            append_unique(&mut results, extra, needed);
        }
        results
    }

    /// Whether a search goes on by related keywords: it has found too little, this is
    /// allowed, there is a semantic layer, and vectors can be had.
    pub fn wants_expansion(&self, query: &KeywordQuery, found: usize, embedder: bool) -> (r: bool)
        ensures
            r == (expansion_wanted(self.settings(), query@, found as nat) && self.layer() is Some
                && embedder),
    {
        let layer = match &self.fuzzy {
            Some(f) => f.is_ready(),
            None => false,
        };
        !query.keywords.is_empty() && found < query.top_k && self.config.enable_semantic_fallback
            && layer && embedder
    }

    /// The keywords that are related to those of a query, where `sims` holds the
    /// similarities of the terms of the semantic layer with each keyword of the query, as far
    /// as they are known.
    pub fn related_keywords(&self, query: &KeywordQuery, sims: &Vec<Option<Vec<Real>>>) -> (r: Vec<
        KeywordToken,
    >)
        requires
            self.layer() matches Some(f) && similarities_fit(
                sims@,
                query@.keywords.len(),
                f.terms().len(),
            ),
        ensures
            exists|parts: Seq<Seq<(Seq<char>, Real)>>|
                {
                    &&& #[trigger] are_expansions(
                        self.layer()->0.terms(),
                        sims@,
                        query@.keywords,
                        self.settings().semantic_top_k,
                        parts,
                    )
                    &&& token_texts(r@) == gathered(parts)
                },
    {
        let mut out: Vec<KeywordToken> = Vec::new();
        let ghost mut parts: Seq<Seq<(Seq<char>, Real)>> = Seq::empty();
        assert(token_texts(out@) =~= gathered(parts));
        let fuzzy = match &self.fuzzy {
            Some(f) => f,
            None => {
                return out;
            },
        };
        let keywords = query.keywords.tokens();
        let ghost ks = query@.keywords;
        let ghost ts = fuzzy.terms();
        let mut i: usize = 0;
        while i < keywords.len()
            invariant
                i <= keywords@.len(),
                ks == token_texts(keywords@),
                ts == fuzzy.terms(),
                similarities_fit(sims@, ks.len(), ts.len()),
                parts.len() == i,
                forall|j: int|
                    0 <= j < parts.len() ==> match sims@[j] {
                        Some(v) => is_expansion(
                            ts,
                            v@,
                            ks[j],
                            self.config.semantic_top_k,
                            #[trigger] parts[j],
                        ),
                        None => parts[j].len() == 0,
                    },
                token_texts(out@) == gathered(parts),
            decreases keywords@.len() - i,
        {
            let ghost before = parts;
            assert(ks[i as int] == keywords@[i as int]@);
            match &sims[i] {
                Some(v) => {
                    let found = fuzzy.expand(&keywords[i], v, self.config.semantic_top_k);
                    let ghost part = expansion_views(found@);
                    proof {
                        parts = before.push(part);
                        assert(parts.drop_last() =~= before);
                    }
                    let ghost start = token_texts(out@);
                    let ghost names = part.map_values(|x: (Seq<char>, Real)| x.0);
                    let mut j: usize = 0;
                    assert(token_texts(out@) =~= start + names.take(0));
                    while j < found.len()
                        invariant
                            j <= found@.len(),
                            part == expansion_views(found@),
                            names == part.map_values(|x: (Seq<char>, Real)| x.0),
                            token_texts(out@) == start + names.take(j as int),
                        decreases found@.len() - j,
                    {
                        let ghost so_far = token_texts(out@);
                        let t = found[j].0.clone();
                        out.push(t);
                        assert(names[j as int] == found@[j as int].0@);
                        assert(token_texts(out@) =~= so_far.push(names[j as int]));
                        assert(names.take(j + 1) =~= names.take(j as int).push(names[j as int]));
                        j += 1;
                        assert(token_texts(out@) =~= start + names.take(j as int));
                    }
                    assert(names.take(j as int) =~= names);
                },
                None => {
                    proof {
                        let part = Seq::<(Seq<char>, Real)>::empty();
                        parts = before.push(part);
                        assert(parts.drop_last() =~= before);
                        assert(gathered(parts) =~= gathered(before));
                    }
                },
            }
            i += 1;
        }
        assert(are_expansions(
            self.layer()->0.terms(),
            sims@,
            query@.keywords,
            self.settings().semantic_top_k,
            parts,
        ));
        assert(token_texts(out@) == gathered(parts));
        out
    }

    /// Fills up the results of a search by what is found under the related keywords.
    pub fn expanded_query<S: ScoringStrategy>(
        &self,
        query: &KeywordQuery,
        found: Vec<(KeywordRef, Real)>,
        sims: &Vec<Option<Vec<Real>>>,
        now_ms: i64,
        scorer: &S,
    ) -> (r: Vec<(KeywordRef, Real)>)
        requires
            self.wf(),
            self.layer() matches Some(f) && similarities_fit(
                sims@,
                query@.keywords.len(),
                f.terms().len(),
            ),
        ensures
            is_expanded_answer(
                scorer,
                now_ms,
                self.docs(),
                self.vocabulary(),
                self.settings(),
                self.layer()->0.terms(),
                sims@,
                query@,
                result_views(found@),
                result_views(r@),
            ),
    {
        let mut results = found;
        let expansions = self.related_keywords(query, sims);
        assert(expansions@.len() == token_texts(expansions@).len());
        if expansions.len() == 0 {
            return results;
        }
        let set = KeywordSet::from_tokens(expansions);
        let extra = self.search(&set, query, MatchStrategy::Exact, now_ms, scorer);
        append_unique(&mut results, extra, query.top_k);
        results
    }

    /// Searches the index by keywords, then by parts of keywords, then by related keywords,
    /// as long as too little is found. Without similarities the last step is left out.
    pub fn query<S: ScoringStrategy>(
        &self,
        query: &KeywordQuery,
        sims: Option<&Vec<Option<Vec<Real>>>>,
        now_ms: i64,
        scorer: &S,
    ) -> (r: Vec<(KeywordRef, Real)>)
        requires
            self.wf(),
            match (sims, self.layer()) {
                (Some(v), Some(f)) => similarities_fit(
                    v@,
                    query@.keywords.len(),
                    f.terms().len(),
                ),
                _ => true,
            },
        ensures
            exists|literal: Seq<(RefView, Real)>|
                {
                    &&& #[trigger] is_literal_answer(
                        scorer,
                        now_ms,
                        self.docs(),
                        self.vocabulary(),
                        self.settings(),
                        query@,
                        literal,
                    )
                    &&& match (sims, self.layer()) {
                        (Some(v), Some(f)) if expansion_wanted(
                            self.settings(),
                            query@,
                            literal.len(),
                        ) => is_expanded_answer(
                            scorer,
                            now_ms,
                            self.docs(),
                            self.vocabulary(),
                            self.settings(),
                            f.terms(),
                            v@,
                            query@,
                            literal,
                            result_views(r@),
                        ),
                        _ => result_views(r@) == literal,
                    }
                },
    {
        let found = self.literal_query(query, now_ms, scorer);
        let ghost literal = result_views(found@);
        assert(literal.len() == found@.len());
        match sims {
            Some(v) => if self.wants_expansion(query, found.len(), true) {
                self.expanded_query(query, found, v, now_ms, scorer)
            } else {
                found
            },
            None => found,
        }
    }
}

/// Whether every document is among the results once at most.
pub open spec fn results_unique(results: Seq<(RefView, Real)>) -> bool {
    forall|i: int, j: int|
        0 <= i < j < results.len() ==> (#[trigger] results[i]).0 != (#[trigger] results[j]).0
}

/// A later step of a search keeps what was found, in its place; it adds up to the number
/// that is asked for, only what it found itself, and no document twice.
pub proof fn law_later_step_adds(
    results: Seq<(RefView, Real)>,
    extra: Seq<(RefView, Real)>,
    needed: usize,
)
    requires
        results_unique(results),
    ensures
        ({
            let r = appended(results, extra, needed);
            &&& results.len() <= r.len()
            &&& r.take(results.len() as int) == results
            &&& r.len() <= needed || r.len() == results.len()
            &&& forall|i: int|
                results.len() <= i < r.len() ==> extra.contains(#[trigger] r[i])
            &&& results_unique(r)
        }),
    decreases extra.len(),
{
    if extra.len() == 0 || results.len() >= needed {
        assert(results.take(results.len() as int) =~= results);
    } else if has_result(results, extra[0].0) {
        law_later_step_adds(results, extra.drop_first(), needed);
        let r = appended(results, extra.drop_first(), needed);
        assert forall|i: int| results.len() <= i < r.len() implies extra.contains(
            #[trigger] r[i],
        ) by {
            let k = choose|k: int| 0 <= k < extra.drop_first().len() && extra.drop_first()[k] == r[i];
            assert(extra[k + 1] == r[i]);
        }
    } else {
        let more = results.push(extra[0]);
        assert(results_unique(more)) by {
            assert forall|i: int, j: int| 0 <= i < j < more.len() implies (#[trigger] more[i]).0
                != (#[trigger] more[j]).0 by {
                if j == results.len() {
                    assert(results[i].0 != extra[0].0);
                }
            }
        }
        law_later_step_adds(more, extra.drop_first(), needed);
        let r = appended(more, extra.drop_first(), needed);
        assert(r.take(results.len() as int) =~= results) by {
            assert forall|i: int| 0 <= i < results.len() implies r[i] == results[i] by {
                assert(r.take(more.len() as int)[i] == more[i]);
            }
        }
        assert forall|i: int| results.len() <= i < r.len() implies extra.contains(
            #[trigger] r[i],
        ) by {
            if i == results.len() {
                assert(r.take(more.len() as int)[i] == more[i]);
                assert(extra[0] == r[i]);
            } else {
                let k = choose|k: int|
                    0 <= k < extra.drop_first().len() && extra.drop_first()[k] == r[i];
                assert(extra[k + 1] == r[i]);
            }
        }
    }
}

/// Filling up keeps what is there.
proof fn lemma_keeps_results(
    results: Seq<(RefView, Real)>,
    extra: Seq<(RefView, Real)>,
    needed: usize,
)
    ensures
        appended(results, extra, needed).len() >= results.len(),
        forall|i: int|
            0 <= i < results.len() ==> #[trigger] appended(results, extra, needed)[i] == results[i],
    decreases extra.len(),
{
    if extra.len() > 0 && results.len() < needed {
        let more = if has_result(results, extra[0].0) {
            results
        } else {
            results.push(extra[0])
        };
        lemma_keeps_results(more, extra.drop_first(), needed);
        assert forall|i: int| 0 <= i < results.len() implies #[trigger] appended(
            results,
            extra,
            needed,
        )[i] == results[i] by {
            assert(more[i] == results[i]);
        }
    }
}

/// Where the document that the later step found first is, once filling up has looked at it.
proof fn lemma_first_is_listed(
    results: Seq<(RefView, Real)>,
    extra: Seq<(RefView, Real)>,
    needed: usize,
) -> (w: int)
    requires
        extra.len() > 0,
        results.len() < needed,
    ensures
        0 <= w <= results.len(),
        w < appended(results, extra, needed).len(),
        appended(results, extra, needed)[w].0 == extra[0].0,
        w == results.len() <==> !has_result(results, extra[0].0),
{
    lemma_keeps_results(results, extra, needed);
    if has_result(results, extra[0].0) {
        choose|i: int| 0 <= i < results.len() && (#[trigger] results[i]).0 == extra[0].0
    } else {
        lemma_keeps_results(results.push(extra[0]), extra.drop_first(), needed);
        results.len() as int
    }
}

/// Filling up is complete: either there are as many results as are asked for, or every document
/// that the later step found is among them.
pub proof fn law_filling_is_complete(
    results: Seq<(RefView, Real)>,
    extra: Seq<(RefView, Real)>,
    needed: usize,
)
    ensures
        appended(results, extra, needed).len() >= needed || forall|k: int|
            0 <= k < extra.len() ==> exists|i: int|
                0 <= i < appended(results, extra, needed).len() && (#[trigger] appended(
                    results,
                    extra,
                    needed,
                )[i]).0 == (#[trigger] extra[k]).0,
    decreases extra.len(),
{
    let r = appended(results, extra, needed);
    if extra.len() > 0 && results.len() < needed {
        let rest = extra.drop_first();
        let known = has_result(results, extra[0].0);
        let more = if known {
            results
        } else {
            results.push(extra[0])
        };
        law_filling_is_complete(more, rest, needed);
        lemma_keeps_results(more, rest, needed);
        assert(r == appended(more, rest, needed));
        let w = lemma_first_is_listed(results, extra, needed);
        if r.len() < needed {
            assert forall|k: int| 0 <= k < extra.len() implies exists|i: int|
                0 <= i < r.len() && (#[trigger] r[i]).0 == (#[trigger] extra[k]).0 by {
                if k == 0 {
                    assert(r[w].0 == extra[0].0);
                } else {
                    assert(rest[k - 1] == extra[k]);
                    let i = choose|i: int|
                        0 <= i < r.len() && (#[trigger] r[i]).0 == rest[k - 1].0;
                    assert(r[i].0 == extra[k].0);
                }
            }
        }
    }
}

/// What filling up adds keeps the order in which the later step found it.
pub proof fn law_filling_keeps_order(
    results: Seq<(RefView, Real)>,
    extra: Seq<(RefView, Real)>,
    needed: usize,
    i: int,
    j: int,
)
    requires
        results.len() <= i < j < appended(results, extra, needed).len(),
    ensures
        exists|a: int, b: int|
            0 <= a < b < extra.len() && #[trigger] extra[a] == appended(results, extra, needed)[i]
                && #[trigger] extra[b] == appended(results, extra, needed)[j],
    decreases extra.len(),
{
    let r = appended(results, extra, needed);
    let rest = extra.drop_first();
    let more = if has_result(results, extra[0].0) {
        results
    } else {
        results.push(extra[0])
    };
    assert(extra.len() > 0 && results.len() < needed);
    assert(r == appended(more, rest, needed));
    lemma_keeps_results(more, rest, needed);
    if i < more.len() {
        assert(r[i] == more[i]);
        let b = lemma_added_is_found(more, rest, needed, j);
        assert(extra[0] == r[i] && extra[b + 1] == r[j]);
    } else {
        law_filling_keeps_order(more, rest, needed, i, j);
        let (a, b) = choose|a: int, b: int|
            0 <= a < b < rest.len() && #[trigger] rest[a] == r[i] && #[trigger] rest[b] == r[j];
        assert(extra[a + 1] == r[i] && extra[b + 1] == r[j]);
    }
}

/// Where something that was added stands in what the later step found.
proof fn lemma_added_is_found(
    results: Seq<(RefView, Real)>,
    extra: Seq<(RefView, Real)>,
    needed: usize,
    j: int,
) -> (b: int)
    requires
        results.len() <= j < appended(results, extra, needed).len(),
    ensures
        0 <= b < extra.len(),
        extra[b] == appended(results, extra, needed)[j],
        forall|a: int|
            0 <= a < b ==> has_result(
                appended(results, extra, needed).take(j),
                (#[trigger] extra[a]).0,
            ),
    decreases extra.len(),
{
    let r = appended(results, extra, needed);
    let rest = extra.drop_first();
    let more = if has_result(results, extra[0].0) {
        results
    } else {
        results.push(extra[0])
    };
    assert(extra.len() > 0 && results.len() < needed);
    assert(r == appended(more, rest, needed));
    lemma_keeps_results(more, rest, needed);
    let w = lemma_first_is_listed(results, extra, needed);
    if j < more.len() {
        assert(r[j] == more[j]);
        0
    } else {
        let b = lemma_added_is_found(more, rest, needed, j);
        assert forall|a: int| 0 <= a < b + 1 implies has_result(
            r.take(j),
            (#[trigger] extra[a]).0,
        ) by {
            if a == 0 {
                assert(r.take(j)[w].0 == extra[0].0);
            } else {
                assert(rest[a - 1] == extra[a]);
            }
        }
        b + 1
    }
}

/// Filling up skips nothing: whatever the later step ranked before something that was added is
/// among the results before it.
pub proof fn law_filling_skips_nothing(
    results: Seq<(RefView, Real)>,
    extra: Seq<(RefView, Real)>,
    needed: usize,
    j: int,
)
    requires
        results.len() <= j < appended(results, extra, needed).len(),
    ensures
        exists|b: int|
            {
                &&& 0 <= b < extra.len()
                &&& #[trigger] extra[b] == appended(results, extra, needed)[j]
                &&& forall|a: int|
                    0 <= a < b ==> exists|i: int|
                        0 <= i < j && (#[trigger] appended(results, extra, needed)[i]).0 == (
                        #[trigger] extra[a]).0
            },
{
    let r = appended(results, extra, needed);
    let b = lemma_added_is_found(results, extra, needed, j);
    assert forall|a: int| 0 <= a < b implies exists|i: int|
        0 <= i < j && (#[trigger] r[i]).0 == (#[trigger] extra[a]).0 by {
        let t = r.take(j);
        let i = choose|i: int| 0 <= i < t.len() && (#[trigger] t[i]).0 == extra[a].0;
        assert(r[i] == t[i]);
    }
}

proof fn lemma_related_terms(terms: Seq<Seq<char>>, sims: Seq<Real>, query: Seq<char>)
    ensures
        related(terms, sims, query) == Seq::new(terms.len(), |i: int| i).filter(
            |i: int|
                terms[i] != query && 0x3fe6_6666_6666_6666 <= sims[i].bits
                    <= 0x7ff0_0000_0000_0000,
        ),
    decreases terms.len(),
{
    reveal(Seq::filter);
    let f = |i: int|
        terms[i] != query && 0x3fe6_6666_6666_6666 <= sims[i].bits <= 0x7ff0_0000_0000_0000;
    let all = Seq::new(terms.len(), |i: int| i);
    if terms.len() > 0 {
        let n = terms.len() - 1;
        let front = terms.drop_last();
        let g = |i: int|
            front[i] != query && 0x3fe6_6666_6666_6666 <= sims[i].bits <= 0x7ff0_0000_0000_0000;
        lemma_related_terms(front, sims, query);
        assert(all.drop_last() =~= Seq::new(front.len(), |i: int| i));
        lemma_filter_alike(all.drop_last(), f, g);
        crate::binary64::law_order_of_numbers(Real { bits: 0x3fe6_6666_6666_6666 }, sims[n]);
        assert(all.last() == n);
    } else {
        assert(all.filter(f) =~= Seq::<int>::empty());
    }
}

proof fn lemma_filter_alike(s: Seq<int>, f: spec_fn(int) -> bool, g: spec_fn(int) -> bool)
    requires
        forall|k: int| 0 <= k < s.len() ==> f(#[trigger] s[k]) == g(s[k]),
    ensures
        s.filter(f) == s.filter(g),
    decreases s.len(),
{
    reveal(Seq::filter);
    if s.len() > 0 {
        assert forall|k: int| 0 <= k < s.drop_last().len() implies f(
            #[trigger] s.drop_last()[k],
        ) == g(s.drop_last()[k]) by {
            assert(s.drop_last()[k] == s[k]);
        }
        lemma_filter_alike(s.drop_last(), f, g);
        assert(f(s[s.len() - 1]) == g(s[s.len() - 1]));
    }
}

/// An expansion holds the terms that are not the query term and whose similarity is at least
/// seven tenths, each with its similarity: all of them, or the most similar ones where fewer are
/// asked for. The more similar come first, and of equally similar ones the one that comes first
/// in the order of texts.
pub proof fn law_expansion_is_complete(
    terms: Seq<Seq<char>>,
    sims: Seq<Real>,
    query: Seq<char>,
    top_k: usize,
    r: Seq<(Seq<char>, Real)>,
)
    requires
        is_expansion(terms, sims, query, top_k, r),
    ensures
        r.len() == ({
            let n = Seq::new(terms.len(), |i: int| i).filter(
                |i: int|
                    terms[i] != query && 0x3fe6_6666_6666_6666 <= sims[i].bits
                        <= 0x7ff0_0000_0000_0000,
            ).len();
            if top_k < n {
                top_k as nat
            } else {
                n
            }
        }),
        forall|j: int|
            0 <= j < r.len() ==> exists|i: int|
                0 <= i < terms.len() && #[trigger] terms[i] == (#[trigger] r[j]).0 && sims[i]
                    == r[j].1 && terms[i] != query && 0x3fe6_6666_6666_6666 <= sims[i].bits
                    <= 0x7ff0_0000_0000_0000,
        forall|i: int|
            0 <= i < terms.len() && #[trigger] terms[i] != query && 0x3fe6_6666_6666_6666
                <= sims[i].bits <= 0x7ff0_0000_0000_0000 ==> {
                ||| r.contains((terms[i], sims[i]))
                ||| r.len() == top_k && forall|j: int|
                    0 <= j < r.len() ==> (#[trigger] r[j]).1.bits >= sims[i].bits
            },
        forall|a: int, b: int|
            0 <= a < b < r.len() ==> {
                ||| (#[trigger] r[a]).1.bits > (#[trigger] r[b]).1.bits
                ||| r[a].1.bits == r[b].1.bits && !lex_lt(r[b].0, r[a].0)
            },
{
    let f = |i: int|
        terms[i] != query && 0x3fe6_6666_6666_6666 <= sims[i].bits <= 0x7ff0_0000_0000_0000;
    let all = Seq::new(terms.len(), |i: int| i);
    let is = related(terms, sims, query);
    lemma_related_terms(terms, sims, query);
    let keys = related_keys(terms, sims, is);
    let p = choose|p: Seq<usize>| #[trigger]
        ordered_by(p, keys) && r == Seq::new(
            if top_k < is.len() {
                top_k as nat
            } else {
                is.len()
            },
            |j: int| (terms[is[p[j] as int]], sims[is[p[j] as int]]),
        );
    crate::order::law_order_lists_all(p, keys);
    assert forall|m: int| 0 <= m < is.len() implies 0 <= #[trigger] is[m] < terms.len() && f(
        is[m],
    ) by {
        all.lemma_filter_pred(f, m);
        all.lemma_filter_contains_rev(f, is[m]);
    }
    assert forall|a: int, b: int| 0 <= a < b < p.len() implies {
        let x = is[#[trigger] p[a] as int];
        let y = is[#[trigger] p[b] as int];
        ||| sims[x].bits > sims[y].bits
        ||| sims[x].bits == sims[y].bits && !lex_lt(terms[y], terms[x])
    } by {
        let x = is[p[a] as int];
        let y = is[p[b] as int];
        assert(f(x) && f(y));
        let s = keys[p[a] as int];
        let t = keys[p[b] as int];
        assert(s == related_key(terms, sims, x) && t == related_key(terms, sims, y));
        assert(s[0] == -sims[x].bits && t[0] == -sims[y].bits);
        assert(!crate::order::key_lt(t, s));
        if sims[x].bits == sims[y].bits {
            assert(s.drop_first() =~= code_points(terms[x]));
            assert(t.drop_first() =~= code_points(terms[y]));
            lemma_code_points_order(terms[y], terms[x]);
        }
    }
    assert forall|j: int| 0 <= j < r.len() implies exists|i: int|
        0 <= i < terms.len() && #[trigger] terms[i] == (#[trigger] r[j]).0 && sims[i] == r[j].1
            && terms[i] != query && 0x3fe6_6666_6666_6666 <= sims[i].bits
            <= 0x7ff0_0000_0000_0000 by {
        let i = is[p[j] as int];
        assert(f(i));
        assert(terms[i] == r[j].0);
    }
    assert forall|i: int|
        0 <= i < terms.len() && #[trigger] terms[i] != query && 0x3fe6_6666_6666_6666
            <= sims[i].bits <= 0x7ff0_0000_0000_0000 implies {
        ||| r.contains((terms[i], sims[i]))
        ||| r.len() == top_k && forall|j: int|
            0 <= j < r.len() ==> (#[trigger] r[j]).1.bits >= sims[i].bits
    } by {
        all.lemma_filter_contains(f, i);
        assert(all[i] == i);
        assert(is.contains(i));
        let m = choose|m: int| 0 <= m < is.len() && is[m] == i;
        crate::order::lemma_lists_all(p, keys.len() as int, m);
        let a = choose|a: int| 0 <= a < p.len() && #[trigger] p[a] == m;
        if a < r.len() {
            assert(r[a] == (terms[i], sims[i]));
        } else {
            assert forall|b: int| 0 <= b < r.len() implies (#[trigger] r[b]).1.bits
                >= sims[i].bits by {
                assert(p[b] != p[a]);
            }
        }
    }
    assert forall|a: int, b: int| 0 <= a < b < r.len() implies {
        ||| (#[trigger] r[a]).1.bits > (#[trigger] r[b]).1.bits
        ||| r[a].1.bits == r[b].1.bits && !lex_lt(r[b].0, r[a].0)
    } by {
        let x = is[p[a] as int];
        let y = is[p[b] as int];
        assert(r[a] == (terms[x], sims[x]) && r[b] == (terms[y], sims[y]));
    }
}

/// Every expansion of every keyword is gathered, and nothing else.
pub proof fn law_all_expansions_are_gathered(parts: Seq<Seq<(Seq<char>, Real)>>, t: Seq<char>)
    ensures
        gathered(parts).contains(t) <==> exists|i: int, j: int|
            0 <= i < parts.len() && 0 <= j < parts[i].len() && (#[trigger] parts[i][j]).0 == t,
    decreases parts.len(),
{
    let name = |x: (Seq<char>, Real)| x.0;
    if parts.len() > 0 {
        let front = parts.drop_last();
        let last = parts.last().map_values(name);
        law_all_expansions_are_gathered(front, t);
        let g = gathered(parts);
        assert(g =~= gathered(front) + last);
        if g.contains(t) {
            let k = choose|k: int| 0 <= k < g.len() && g[k] == t;
            if k < gathered(front).len() {
                assert(gathered(front)[k] == t);
                let (i, j) = choose|i: int, j: int|
                    0 <= i < front.len() && 0 <= j < front[i].len() && (#[trigger] front[i][j]).0
                        == t;
                assert(parts[i][j].0 == t);
            } else {
                let j = k - gathered(front).len();
                assert(parts[parts.len() - 1][j].0 == t);
            }
        }
        if exists|i: int, j: int|
            0 <= i < parts.len() && 0 <= j < parts[i].len() && (#[trigger] parts[i][j]).0 == t {
            let (i, j) = choose|i: int, j: int|
                0 <= i < parts.len() && 0 <= j < parts[i].len() && (#[trigger] parts[i][j]).0 == t;
            if i < front.len() {
                assert(front[i][j].0 == t);
                let k = choose|k: int| 0 <= k < gathered(front).len() && gathered(front)[k] == t;
                assert(g[k] == t);
            } else {
                assert(last[j] == t);
                assert(g[gathered(front).len() + j] == t);
            }
        }
    }
}

/// What is found by whole keywords comes first, in its order. It is all there is where it is
/// enough, or where looking for parts of keywords is not allowed. Otherwise what is found by
/// parts fills up, until there is enough or all of it is there.
pub proof fn law_whole_keywords_come_first<S: ScoringStrategy>(
    scorer: &S,
    now_ms: i64,
    docs: Seq<DocView>,
    v: Seq<Seq<char>>,
    config: CompositeIndexConfig,
    query: QueryView,
    r: Seq<(RefView, Real)>,
) -> (w: (Seq<(RefView, Real)>, Seq<(RefView, Real)>))
    requires
        is_literal_answer(scorer, now_ms, docs, v, config, query, r),
        query.keywords.len() > 0,
        query.top_k > 0,
    ensures
        is_answer(
            scorer,
            now_ms,
            docs,
            v,
            QueryView {
                keywords: query.keywords,
                persona_uid: query.persona_uid,
                top_k: query.top_k,
                strategy: MatchStrategy::Exact,
            },
            w.0,
        ),
        w.0.len() <= r.len(),
        r.take(w.0.len() as int) == w.0,
        w.0.len() >= query.top_k || !config.enable_substring_fallback ==> r == w.0,
        w.0.len() < query.top_k && config.enable_substring_fallback ==> {
            &&& is_answer(
                scorer,
                now_ms,
                docs,
                v,
                QueryView {
                    keywords: query.keywords,
                    persona_uid: query.persona_uid,
                    top_k: query.top_k,
                    strategy: MatchStrategy::Substring,
                },
                w.1,
            )
            &&& r.len() <= query.top_k
            &&& r.len() == query.top_k || forall|k: int|
                0 <= k < w.1.len() ==> exists|i: int|
                    0 <= i < r.len() && (#[trigger] r[i]).0 == (#[trigger] w.1[k]).0
            &&& forall|i: int| w.0.len() <= i < r.len() ==> w.1.contains(#[trigger] r[i])
        },
{
    let by_word = QueryView { strategy: MatchStrategy::Exact, ..query };
    let by_part = QueryView { strategy: MatchStrategy::Substring, ..query };
    let exact = choose|exact: Seq<(RefView, Real)>|
        {
            &&& #[trigger] is_answer(scorer, now_ms, docs, v, by_word, exact)
            &&& if exact.len() < query.top_k && config.enable_substring_fallback {
                exists|extra: Seq<(RefView, Real)>| #[trigger]
                    is_answer(scorer, now_ms, docs, v, by_part, extra) && r == appended(
                        exact,
                        extra,
                        query.top_k,
                    )
            } else {
                r == exact
            }
        };
    assert(exact.take(exact.len() as int) =~= exact);
    if exact.len() < query.top_k && config.enable_substring_fallback {
        let extra = choose|extra: Seq<(RefView, Real)>| #[trigger]
            is_answer(scorer, now_ms, docs, v, by_part, extra) && r == appended(
                exact,
                extra,
                query.top_k,
            );
        law_filling_is_complete(exact, extra, query.top_k);
        lemma_filled(exact, extra, query.top_k);
        (exact, extra)
    } else {
        (exact, exact)
    }
}

/// Filling up keeps what is there, adds only what was found, and stops when there is enough.
proof fn lemma_filled(
    results: Seq<(RefView, Real)>,
    extra: Seq<(RefView, Real)>,
    needed: usize,
)
    ensures
        results.len() <= appended(results, extra, needed).len(),
        appended(results, extra, needed).take(results.len() as int) == results,
        appended(results, extra, needed).len() <= needed || appended(results, extra, needed)
            == results,
        forall|i: int|
            results.len() <= i < appended(results, extra, needed).len() ==> extra.contains(
                #[trigger] appended(results, extra, needed)[i],
            ),
    decreases extra.len(),
{
    let r = appended(results, extra, needed);
    if extra.len() == 0 || results.len() >= needed {
        assert(r.take(results.len() as int) =~= results);
    } else {
        let rest = extra.drop_first();
        let next = if has_result(results, extra[0].0) {
            results
        } else {
            results.push(extra[0])
        };
        lemma_filled(next, rest, needed);
        assert(r == appended(next, rest, needed));
        assert(r.take(results.len() as int) =~= r.take(next.len() as int).take(
            results.len() as int,
        ));
        assert(next.take(results.len() as int) =~= results);
        assert forall|i: int| results.len() <= i < r.len() implies extra.contains(
            #[trigger] r[i],
        ) by {
            if i < next.len() {
                assert(r.take(next.len() as int)[i] == r[i]);
                assert(r[i] == extra[0]);
            } else {
                assert(rest.contains(r[i]));
                let k = choose|k: int| 0 <= k < rest.len() && rest[k] == r[i];
                assert(extra[k + 1] == r[i]);
            }
        }
    }
}

/// A search with nothing to look for, or for no results, finds nothing.
pub proof fn law_empty_search_finds_nothing<S: ScoringStrategy>(
    scorer: &S,
    now_ms: i64,
    docs: Seq<DocView>,
    v: Seq<Seq<char>>,
    config: CompositeIndexConfig,
    query: QueryView,
    r: Seq<(RefView, Real)>,
)
    requires
        is_literal_answer(scorer, now_ms, docs, v, config, query, r),
        query.keywords.len() == 0 || query.top_k == 0,
    ensures
        r.len() == 0,
{
}

/// Related terms are looked for where there is something to look for, too little was found, and
/// it is allowed.
pub proof fn law_related_terms_are_wanted(config: CompositeIndexConfig, query: QueryView, found: nat)
    ensures
        expansion_wanted(config, query, found) <==> query.keywords.len() > 0 && found < query.top_k
            && config.enable_semantic_fallback,
{
}

/// A search for related terms keeps what was found, in its place. The related terms of all
/// keywords are looked for together, each once, and what they find fills up until there is
/// enough or all of it is there. Without related terms nothing is added.
pub proof fn law_related_terms_fill_up<S: ScoringStrategy>(
    scorer: &S,
    now_ms: i64,
    docs: Seq<DocView>,
    v: Seq<Seq<char>>,
    config: CompositeIndexConfig,
    terms: Seq<Seq<char>>,
    sims: Seq<Option<Vec<Real>>>,
    query: QueryView,
    found: Seq<(RefView, Real)>,
    r: Seq<(RefView, Real)>,
) -> (w: (Seq<Seq<(Seq<char>, Real)>>, QueryView, Seq<(RefView, Real)>))
    requires
        is_expanded_answer(scorer, now_ms, docs, v, config, terms, sims, query, found, r),
    ensures
        found.len() <= r.len(),
        r.take(found.len() as int) == found,
        w.0.len() == query.keywords.len(),
        forall|i: int|
            0 <= i < w.0.len() ==> match sims[i] {
                Some(s) => is_expansion(
                    terms,
                    s@,
                    query.keywords[i],
                    config.semantic_top_k,
                    #[trigger] w.0[i],
                ),
                None => w.0[i].len() == 0,
            },
        (forall|i: int| 0 <= i < w.0.len() ==> (#[trigger] w.0[i]).len() == 0) ==> r == found,
        (exists|i: int| 0 <= i < w.0.len() && (#[trigger] w.0[i]).len() > 0) ==> {
            &&& w.1.persona_uid == query.persona_uid
            &&& w.1.top_k == query.top_k
            &&& w.1.strategy == MatchStrategy::Exact
            &&& w.1.keywords.no_duplicates()
            &&& forall|t: Seq<char>| #[trigger]
                w.1.keywords.contains(t) <==> exists|i: int, j: int|
                    0 <= i < w.0.len() && 0 <= j < w.0[i].len() && (#[trigger] w.0[i][j]).0 == t
            &&& is_answer(scorer, now_ms, docs, v, w.1, w.2)
            &&& r.len() >= query.top_k || forall|k: int|
                0 <= k < w.2.len() ==> exists|i: int|
                    0 <= i < r.len() && (#[trigger] r[i]).0 == (#[trigger] w.2[k]).0
            &&& forall|i: int| found.len() <= i < r.len() ==> w.2.contains(#[trigger] r[i])
        },
{
    let parts = choose|parts: Seq<Seq<(Seq<char>, Real)>>|
        {
            &&& #[trigger] are_expansions(
                terms,
                sims,
                query.keywords,
                config.semantic_top_k,
                parts,
            )
            &&& if gathered(parts).len() == 0 {
                r == found
            } else {
                exists|extra: Seq<(RefView, Real)>| #[trigger]
                    is_answer(
                        scorer,
                        now_ms,
                        docs,
                        v,
                        reworded(query, distinct(gathered(parts))),
                        extra,
                    ) && r == appended(found, extra, query.top_k)
            }
        };
    assert(found.take(found.len() as int) =~= found);
    lemma_gathered_some(parts);
    if gathered(parts).len() == 0 {
        (parts, query, found)
    } else {
        let some = choose|i: int| 0 <= i < parts.len() && (#[trigger] parts[i]).len() > 0;
        assert(parts[some].len() > 0);
        let words = distinct(gathered(parts));
        let extra = choose|extra: Seq<(RefView, Real)>| #[trigger]
            is_answer(scorer, now_ms, docs, v, reworded(query, words), extra) && r == appended(
                found,
                extra,
                query.top_k,
            );
        law_filling_is_complete(found, extra, query.top_k);
        lemma_filled(found, extra, query.top_k);
        crate::keyword::token::law_distinct_keeps_first(gathered(parts));
        assert forall|t: Seq<char>| #[trigger] words.contains(t) <==> exists|i: int, j: int|
            0 <= i < parts.len() && 0 <= j < parts[i].len() && (#[trigger] parts[i][j]).0 == t by {
            law_all_expansions_are_gathered(parts, t);
        }
        (parts, reworded(query, words), extra)
    }
}

/// Something is gathered where there is an expansion that holds something.
proof fn lemma_gathered_some(parts: Seq<Seq<(Seq<char>, Real)>>)
    ensures
        gathered(parts).len() > 0 <==> exists|i: int|
            0 <= i < parts.len() && (#[trigger] parts[i]).len() > 0,
    decreases parts.len(),
{
    if parts.len() > 0 {
        let front = parts.drop_last();
        lemma_gathered_some(front);
        if gathered(front).len() > 0 {
            let i = choose|i: int| 0 <= i < front.len() && (#[trigger] front[i]).len() > 0;
            assert(parts[i].len() > 0);
        }
        if parts.last().len() > 0 {
            assert(parts[parts.len() - 1].len() > 0);
        }
        if exists|i: int| 0 <= i < parts.len() && (#[trigger] parts[i]).len() > 0 {
            let i = choose|i: int| 0 <= i < parts.len() && (#[trigger] parts[i]).len() > 0;
            if i < front.len() {
                assert(front[i].len() > 0);
            }
        }
    }
}

/// Terms and vectors make a semantic layer where there are terms, as many vectors as terms, and
/// the vectors have the same length above zero. The first of these that fails is the error.
pub proof fn law_semantic_layer_errors(terms: nat, vectors: Seq<Seq<u32>>)
    requires
        terms <= usize::MAX,
        vectors.len() <= usize::MAX,
        forall|i: int| 0 <= i < vectors.len() ==> (#[trigger] vectors[i]).len() <= usize::MAX,
    ensures
        terms == 0 ==> fuzzy_error(terms, vectors) == Some(FuzzyError::EmptyDictionary),
        terms > 0 && vectors.len() != terms ==> (fuzzy_error(terms, vectors) matches Some(
            FuzzyError::CountMismatch { got, expected },
        ) && got == vectors.len() && expected == terms),
        terms > 0 && vectors.len() == terms && (vectors[0].len() == 0 || exists|i: int, j: int|
            0 <= i < j < vectors.len() && (#[trigger] vectors[i]).len() != (
            #[trigger] vectors[j]).len()) ==> (fuzzy_error(terms, vectors) matches Some(
            FuzzyError::BadDimension { dim },
        ) && dim == vectors[0].len()),
        terms > 0 && vectors.len() == terms && vectors[0].len() > 0 && (forall|i: int, j: int|
            0 <= i < j < vectors.len() ==> (#[trigger] vectors[i]).len() == (
            #[trigger] vectors[j]).len()) ==> fuzzy_error(terms, vectors) is None,
        FuzzyError::EmptyDictionary.text()
            == "FuzzyKeywordIndex 构建：词典为空，无法构建词向量索引"@,
{
}

/// The messages of the errors tell the numbers.
pub proof fn law_semantic_layer_messages(a: usize, b: usize)
    ensures
        (FuzzyError::CountMismatch { got: a, expected: b }).text()
            == "FuzzyKeywordIndex 构建：embedder 返回 "@ + decimal(a as nat)
            + " 条向量，期望 "@ + decimal(b as nat) + " 条"@,
        (FuzzyError::BadDimension { dim: a }).text()
            == "FuzzyKeywordIndex 构建：向量维度非法（dim="@ + decimal(a as nat) + "）"@,
{
}

/// What lists of related terms and of vectors say is what each of them says, in order; layers
/// are the same where their terms and vectors are.
pub proof fn law_layers_are_seen(
    r: Seq<(KeywordToken, Real)>,
    v: Seq<Vec<u32>>,
    a: Option<FuzzyKeywordIndex>,
    b: Option<FuzzyKeywordIndex>,
)
    ensures
        expansion_views(r).len() == r.len() && vector_seqs(v).len() == v.len(),
        forall|i: int| 0 <= i < r.len() ==> #[trigger] expansion_views(r)[i] == (r[i].0@, r[i].1),
        forall|i: int| 0 <= i < v.len() ==> #[trigger] vector_seqs(v)[i] == v[i]@,
        same_layer(a, b) <==> (a is Some <==> b is Some) && (a is Some && b is Some ==> a->0.terms()
            == b->0.terms() && a->0.vectors() == b->0.vectors()),
{
}

/// Related terms are looked for where the query has keywords, too little was found, the search
/// may look for them, there is a semantic layer, and similarities can be measured.
pub proof fn law_when_related_terms_are_looked_for(
    index: &CompositeIndex,
    query: &KeywordQuery,
    found: usize,
    embedder: bool,
    r: bool,
)
    requires
        call_ensures(CompositeIndex::wants_expansion, (index, query, found, embedder), r),
    ensures
        r <==> query.keywords@.len() > 0 && found < query.top_k
            && index.settings().enable_semantic_fallback && index.layer() is Some && embedder,
{
}

/// All terms are sent to be measured, in order; an empty dictionary is refused.
pub proof fn law_all_terms_are_measured(
    terms: &Vec<KeywordToken>,
    r: Result<Vec<String>, FuzzyError>,
)
    requires
        call_ensures(FuzzyKeywordIndex::texts_to_embed, (terms,), r),
    ensures
        terms@.len() == 0 ==> r == Err::<Vec<String>, FuzzyError>(FuzzyError::EmptyDictionary),
        terms@.len() > 0 ==> (r matches Ok(v) && v@.len() == terms@.len() && forall|i: int|
            0 <= i < terms@.len() ==> (#[trigger] v@[i])@ == terms@[i]@),
{
    match r {
        Ok(v) => {
            assert(texts(v@).len() == token_texts(terms@).len());
            assert forall|i: int| 0 <= i < terms@.len() implies (#[trigger] v@[i])@
                == terms@[i]@ by {
                assert(texts(v@)[i] == token_texts(terms@)[i]);
            }
        },
        Err(_) => {},
    }
}

/// Where nothing else is said, both later steps are allowed, with three related terms for each
/// keyword.
pub proof fn law_default_steps(r: CompositeIndexConfig)
    requires
        call_ensures(CompositeIndexConfig::default, (), r),
    ensures
        r.enable_substring_fallback,
        r.enable_semantic_fallback,
        r.semantic_top_k == 3,
{
}

} // verus!
