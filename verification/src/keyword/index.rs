//! The inverted index from keywords to documents.

use vstd::prelude::*;

use crate::binary64::{clamp_unit, unit_clamped, Real};
use crate::ids::{hyphenated, id_text};
use crate::keyword::normalizer::{law_pieces_between_commas, CommaSeparatedNormalizer,
    KeywordNormalizer};
use crate::keyword::token::{distinct, law_distinct_keeps_first, token_texts, KeywordSet,
    KeywordToken};
use crate::order::{key_seqs, law_order_is_unique, ordered_by, stable_order};
use crate::text::{alphanumeric, append_chars, chars_of, holds_part, lemma_lex_irreflexive,
    lemma_lex_total, lemma_lex_transitive, lex_lt, lower, occurs_in, opt_text, same_text,
    signed_chars, signed_decimal, split, string_of, text_before, trim};

verus! {

/// A document or a dictionary entry that keywords point to.
#[allow(inconsistent_fields)]
#[derive(Debug)]
pub enum KeywordRef {
    L1 { id: u128, persona_uid: String },
    L2 { id: i64, persona_uid: String },
    Pool { id: i64 },
}

/// What a `KeywordRef` says.
#[allow(inconsistent_fields)]
pub enum RefView {
    L1 { id: u128, persona_uid: Seq<char> },
    L2 { id: i64, persona_uid: Seq<char> },
    Pool { id: i64 },
}

impl RefView {
    /// The persona that the document belongs to.
    pub open spec fn persona(self) -> Option<Seq<char>> {
        match self {
            RefView::L1 { persona_uid, .. } => Some(persona_uid),
            RefView::L2 { persona_uid, .. } => Some(persona_uid),
            RefView::Pool { .. } => None,
        }
    }

    /// The label of the document: `L1:` and the identifier, or `L2:` and the number.
    /// Dictionary entries have none.
    pub open spec fn label(self) -> Option<Seq<char>> {
        match self {
            RefView::L1 { id, .. } => Some("L1:"@ + hyphenated(id)),
            RefView::L2 { id, .. } => Some("L2:"@ + signed_decimal(id as int)),
            RefView::Pool { .. } => None,
        }
    }
}

impl View for KeywordRef {
    type V = RefView;

    open spec fn view(&self) -> RefView {
        match self {
            KeywordRef::L1 { id, persona_uid } => RefView::L1 {
                id: *id,
                persona_uid: persona_uid@,
            },
            KeywordRef::L2 { id, persona_uid } => RefView::L2 {
                id: *id,
                persona_uid: persona_uid@,
            },
            KeywordRef::Pool { id } => RefView::Pool { id: *id },
        }
    }
}

impl KeywordRef {
    /// The persona that the document belongs to.
    pub fn persona_uid(&self) -> (r: Option<&str>)
        ensures
            match r {
                Some(p) => self@.persona() == Some(p@),
                None => self@.persona() is None,
            },
    {
        match self {
            KeywordRef::L1 { persona_uid, .. } => Some(persona_uid.as_str()),
            KeywordRef::L2 { persona_uid, .. } => Some(persona_uid.as_str()),
            KeywordRef::Pool { .. } => None,
        }
    }

    /// Whether two references are the same.
    pub fn same(&self, other: &KeywordRef) -> (r: bool)
        ensures
            r == (self@ == other@),
    {
        match (self, other) {
            (
                KeywordRef::L1 { id: a, persona_uid: p },
                KeywordRef::L1 { id: b, persona_uid: q },
            ) => *a == *b && same_text(p.as_str(), q.as_str()),
            (
                KeywordRef::L2 { id: a, persona_uid: p },
                KeywordRef::L2 { id: b, persona_uid: q },
            ) => *a == *b && same_text(p.as_str(), q.as_str()),
            (KeywordRef::Pool { id: a }, KeywordRef::Pool { id: b }) => *a == *b,
            _ => false,
        }
    }
}

impl Clone for KeywordRef {
    fn clone(&self) -> (r: Self)
        ensures
            r@ == self@,
    {
        match self {
            KeywordRef::L1 { id, persona_uid } => KeywordRef::L1 {
                id: *id,
                persona_uid: persona_uid.clone(),
            },
            KeywordRef::L2 { id, persona_uid } => KeywordRef::L2 {
                id: *id,
                persona_uid: persona_uid.clone(),
            },
            KeywordRef::Pool { id } => KeywordRef::Pool { id: *id },
        }
    }
}

impl PartialEq for KeywordRef {
    fn eq(&self, other: &KeywordRef) -> (r: bool) {
        self.same(other)
    }
}

impl vstd::std_specs::cmp::PartialEqSpecImpl for KeywordRef {
    open spec fn obeys_eq_spec() -> bool {
        true
    }

    open spec fn eq_spec(&self, other: &KeywordRef) -> bool {
        self@ == other@
    }
}

/// The label of a document; dictionary entries have none.
pub fn keyword_ref_label(reff: &KeywordRef) -> (r: Option<String>)
    ensures
        match r {
            Some(l) => reff@.label() == Some(l@),
            None => reff@.label() is None,
        },
{
    match reff {
        KeywordRef::L1 { id, .. } => {
            let mut out = chars_of("L1:");
            let text = id_text(*id);
            let tail = chars_of(text.as_str());
            append_chars(&mut out, &tail);
            Some(string_of(&out))
        },
        KeywordRef::L2 { id, .. } => {
            let mut out = chars_of("L2:");
            let digits = signed_chars(*id);
            append_chars(&mut out, &digits);
            Some(string_of(&out))
        },
        KeywordRef::Pool { .. } => None,
    }
}

/// An indexed document.
pub struct DocView {
    pub reff: RefView,
    pub keywords: Seq<Seq<char>>,
    pub salience: Real,
    pub created_at: i64,
}

/// An indexed document.
#[derive(Debug)]
struct DocEntry {
    reff: KeywordRef,
    keywords: KeywordSet,
    salience: Real,
    created_at: i64,
}

impl DocEntry {
    spec fn view(&self) -> DocView {
        DocView {
            reff: self.reff@,
            keywords: self.keywords@,
            salience: self.salience,
            created_at: self.created_at,
        }
    }

    fn copy(&self) -> (r: Self)
        ensures
            r.view() == self.view(),
    {
        DocEntry {
            reff: self.reff.clone(),
            keywords: self.keywords.clone(),
            salience: self.salience,
            created_at: self.created_at,
        }
    }
}

/// A keyword and the positions of the documents that have it.
#[derive(Debug)]
struct Posting {
    token: KeywordToken,
    docs: Vec<usize>,
}

impl Posting {
    fn copy(&self) -> (r: Self)
        ensures
            r.token@ == self.token@,
            r.docs@ == self.docs@,
    {
        let docs = self.docs.clone();
        assert(docs@ =~= self.docs@);
        Posting { token: self.token.clone(), docs }
    }
}

/// The positions of the documents with keyword `t`, ascending.
pub open spec fn posting_of(docs: Seq<DocView>, t: Seq<char>) -> Seq<usize>
    decreases docs.len(),
{
    if docs.len() == 0 {
        Seq::empty()
    } else {
        let front = posting_of(docs.drop_last(), t);
        if docs.last().keywords.contains(t) {
            front.push((docs.len() - 1) as usize)
        } else {
            front
        }
    }
}

/// The number of documents with keyword `t`.
pub open spec fn doc_frequency(docs: Seq<DocView>, t: Seq<char>) -> nat {
    posting_of(docs, t).len()
}

/// Whether `v` is the sorted list of all keywords of the documents.
pub open spec fn is_vocabulary(v: Seq<Seq<char>>, docs: Seq<DocView>) -> bool {
    &&& forall|a: int, b: int| 0 <= a < b < v.len() ==> lex_lt(#[trigger] v[a], #[trigger] v[b])
    &&& forall|t: Seq<char>| #[trigger]
        v.contains(t) <==> exists|i: int| 0 <= i < docs.len() && (#[trigger] docs[i]).keywords.contains(t)
}

/// The documents of a vector of documents.
spec fn doc_views(docs: Seq<DocEntry>) -> Seq<DocView> {
    docs.map_values(|d: DocEntry| d.view())
}

spec fn has_key(inv: Seq<Posting>, t: Seq<char>) -> bool {
    exists|k: int| 0 <= k < inv.len() && (#[trigger] inv[k]).token@ == t
}

spec fn sorted_keys(inv: Seq<Posting>) -> bool {
    forall|a: int, b: int|
        0 <= a < b < inv.len() ==> lex_lt((#[trigger] inv[a]).token@, (#[trigger] inv[b]).token@)
}

/// Whether the postings are those of the documents.
spec fn inverted_ok(inv: Seq<Posting>, docs: Seq<DocView>) -> bool {
    &&& sorted_keys(inv)
    &&& forall|k: int|
        0 <= k < inv.len() ==> (#[trigger] inv[k]).docs@ == posting_of(docs, inv[k].token@)
    &&& forall|k: int| 0 <= k < inv.len() ==> (#[trigger] inv[k]).docs@.len() > 0
    &&& forall|i: int, t: Seq<char>|
        0 <= i < docs.len() && #[trigger] docs[i].keywords.contains(t) ==> has_key(inv, t)
}

/// What a posting lists: exactly the documents with the keyword, ascending.
proof fn lemma_posting(docs: Seq<DocView>, t: Seq<char>)
    requires
        docs.len() <= usize::MAX,
    ensures
        forall|p: int|
            0 <= p < posting_of(docs, t).len() ==> (#[trigger] posting_of(docs, t)[p]) < docs.len()
                && docs[posting_of(docs, t)[p] as int].keywords.contains(t),
        forall|p: int, q: int|
            0 <= p < q < posting_of(docs, t).len() ==> #[trigger] posting_of(docs, t)[p]
                < #[trigger] posting_of(docs, t)[q],
        forall|i: int|
            0 <= i < docs.len() && #[trigger] docs[i].keywords.contains(t) ==> posting_of(
                docs,
                t,
            ).contains(i as usize),
    decreases docs.len(),
{
    if docs.len() > 0 {
        let rest = docs.drop_last();
        lemma_posting(rest, t);
        let front = posting_of(rest, t);
        let all = posting_of(docs, t);
        assert forall|p: int| 0 <= p < all.len() implies (#[trigger] all[p]) < docs.len()
            && docs[all[p] as int].keywords.contains(t) by {
            if p < front.len() {
                assert(all[p] == front[p]);
                assert(rest[front[p] as int] == docs[front[p] as int]);
            }
        }
        assert forall|p: int, q: int| 0 <= p < q < all.len() implies #[trigger] all[p]
            < #[trigger] all[q] by {
            assert(all[p] == front[p]);
            if q < front.len() {
                assert(all[q] == front[q]);
            }
        }
        assert forall|i: int|
            0 <= i < docs.len() && #[trigger] docs[i].keywords.contains(t) implies all.contains(
            i as usize,
        ) by {
            if i < rest.len() {
                assert(rest[i] == docs[i]);
                assert(rest[i].keywords.contains(t));
                assert(front.contains(i as usize));
                let p = choose|p: int| 0 <= p < front.len() && front[p] == i as usize;
                assert(all[p] == i as usize);
            } else {
                assert(all[front.len() as int] == i as usize);
            }
        }
    }
}

/// A keyword that no document has, has no posting.
proof fn lemma_no_posting(docs: Seq<DocView>, t: Seq<char>)
    requires
        forall|i: int| 0 <= i < docs.len() ==> !(#[trigger] docs[i]).keywords.contains(t),
    ensures
        posting_of(docs, t).len() == 0,
    decreases docs.len(),
{
    if docs.len() > 0 {
        let rest = docs.drop_last();
        assert forall|i: int| 0 <= i < rest.len() implies !(#[trigger] rest[i]).keywords.contains(
            t,
        ) by {
            assert(rest[i] == docs[i]);
        }
        lemma_no_posting(rest, t);
        assert(!docs[docs.len() - 1].keywords.contains(t));
    }
}

/// A document with only the first `j` of its keywords.
spec fn partial(d: DocView, j: int) -> DocView {
    DocView { keywords: d.keywords.take(j), ..d }
}

/// How the postings change with one more keyword of the last document.
proof fn lemma_one_more(docs: Seq<DocView>, d: DocView, j: int, x: Seq<char>)
    requires
        d.keywords.no_duplicates(),
        0 <= j < d.keywords.len(),
        docs.len() < usize::MAX,
    ensures
        posting_of(docs.push(partial(d, j + 1)), x) == (if x == d.keywords[j] {
            posting_of(docs, x).push(docs.len() as usize)
        } else {
            posting_of(docs.push(partial(d, j)), x)
        }),
        x == d.keywords[j] ==> posting_of(docs.push(partial(d, j)), x) == posting_of(docs, x),
{
    let a = docs.push(partial(d, j + 1));
    let b = docs.push(partial(d, j));
    assert(a.drop_last() =~= docs);
    assert(b.drop_last() =~= docs);
    let ka = d.keywords.take(j + 1);
    let kb = d.keywords.take(j);
    assert(ka =~= kb.push(d.keywords[j]));
    if x == d.keywords[j] {
        assert(ka[j] == x);
        assert(ka.contains(x));
        if kb.contains(x) {
            let m = choose|m: int| 0 <= m < kb.len() && kb[m] == x;
            assert(d.keywords[m] == d.keywords[j]);
            assert(false);
        }
    } else {
        if ka.contains(x) {
            let m = choose|m: int| 0 <= m < ka.len() && ka[m] == x;
            assert(kb[m] == x);
        }
        if kb.contains(x) {
            let m = choose|m: int| 0 <= m < kb.len() && kb[m] == x;
            assert(ka[m] == x);
        }
    }
}

/// Where keyword `t` stands among the postings, or where it would have to stand.
fn locate(inv: &Vec<Posting>, t: &KeywordToken) -> (r: (usize, bool))
    requires
        sorted_keys(inv@),
    ensures
        r.0 <= inv@.len(),
        forall|k: int| 0 <= k < r.0 ==> lex_lt((#[trigger] inv@[k]).token@, t@),
        r.1 ==> r.0 < inv@.len() && inv@[r.0 as int].token@ == t@,
        !r.1 ==> forall|k: int| r.0 <= k < inv@.len() ==> lex_lt(t@, (#[trigger] inv@[k]).token@),
        r.1 == has_key(inv@, t@),
{
    let mut pos: usize = 0;
    while pos < inv.len() && text_before(inv[pos].token.as_str(), t.as_str())
        invariant
            pos <= inv@.len(),
            forall|k: int| 0 <= k < pos ==> lex_lt((#[trigger] inv@[k]).token@, t@),
        decreases inv@.len() - pos,
    {
        pos += 1;
    }
    let found = pos < inv.len() && inv[pos].token.same(t);
    proof {
        lemma_lex_irreflexive(t@);
        if !found {
            assert forall|k: int| pos <= k < inv@.len() implies lex_lt(
                t@,
                (#[trigger] inv@[k]).token@,
            ) by {
                lemma_lex_total(inv@[pos as int].token@, t@);
                if k > pos {
                    assert(lex_lt(inv@[pos as int].token@, inv@[k].token@));
                    lemma_lex_transitive(t@, inv@[pos as int].token@, inv@[k].token@);
                }
            }
        }
    }
    (pos, found)
}

/// Adds the keywords of one more document, the one at position `idx`, to the postings.
fn add_terms(
    inv: &mut Vec<Posting>,
    keywords: &KeywordSet,
    idx: usize,
    Ghost(docs): Ghost<Seq<DocView>>,
    Ghost(d): Ghost<DocView>,
)
    requires
        inverted_ok(old(inv)@, docs),
        d.keywords == keywords@,
        idx == docs.len(),
        idx < usize::MAX,
    ensures
        inverted_ok(final(inv)@, docs.push(d)),
{
    let items = keywords.tokens();
    let mut j: usize = 0;
    proof {
        let first = docs.push(partial(d, 0));
        assert(first.drop_last() =~= docs);
        assert forall|x: Seq<char>| posting_of(first, x) == posting_of(docs, x) by {
            assert(!d.keywords.take(0).contains(x));
        }
        assert forall|i: int, t: Seq<char>|
            0 <= i < first.len() && #[trigger] first[i].keywords.contains(t) implies has_key(
            inv@,
            t,
        ) by {
            if i < docs.len() {
                assert(docs[i].keywords.contains(t));
            } else {
                assert(!d.keywords.take(0).contains(t));
            }
        }
    }
    while j < items.len()
        invariant
            j <= items@.len(),
            token_texts(items@) == d.keywords,
            d.keywords.no_duplicates(),
            idx == docs.len(),
            idx < usize::MAX,
            inverted_ok(inv@, docs.push(partial(d, j as int))),
        decreases items@.len() - j,
    {
        let t = &items[j];
        let ghost now = docs.push(partial(d, j as int));
        let ghost next = docs.push(partial(d, j + 1));
        let ghost before = inv@;
        assert(t@ == d.keywords[j as int]);
        let (pos, found) = locate(inv, t);
        if found {
            inv[pos].docs.push(idx);
            proof {
                assert forall|k: int| 0 <= k < inv@.len() implies #[trigger] inv@[k].token@
                    == before[k].token@ by {}
            }
        } else {
            let mut docs_of: Vec<usize> = Vec::new();
            docs_of.push(idx);
            let token = t.clone();
            inv.insert(pos, Posting { token, docs: docs_of });
        }
        proof {
            lemma_after_insert(before, inv@, docs, d, j as int, pos as int, found);
        }
        j += 1;
    }
    proof {
        assert(d.keywords.take(j as int) =~= d.keywords);
    }
}

/// The postings stay right when one keyword of the last document is entered.
proof fn lemma_after_insert(
    before: Seq<Posting>,
    after: Seq<Posting>,
    docs: Seq<DocView>,
    d: DocView,
    j: int,
    pos: int,
    found: bool,
)
    requires
        d.keywords.no_duplicates(),
        0 <= j < d.keywords.len(),
        docs.len() < usize::MAX,
        inverted_ok(before, docs.push(partial(d, j))),
        0 <= pos <= before.len(),
        forall|k: int| 0 <= k < pos ==> lex_lt((#[trigger] before[k]).token@, d.keywords[j]),
        found == has_key(before, d.keywords[j]),
        if found {
            &&& pos < before.len()
            &&& before[pos].token@ == d.keywords[j]
            &&& after.len() == before.len()
            &&& after[pos].token@ == before[pos].token@
            &&& after[pos].docs@ == before[pos].docs@.push(docs.len() as usize)
            &&& forall|k: int|
                0 <= k < before.len() && k != pos ==> #[trigger] after[k] == before[k]
        } else {
            &&& forall|k: int|
                pos <= k < before.len() ==> lex_lt(d.keywords[j], (#[trigger] before[k]).token@)
            &&& after.len() == before.len() + 1
            &&& after[pos].token@ == d.keywords[j]
            &&& after[pos].docs@ =~= seq![docs.len() as usize]
            &&& forall|k: int| 0 <= k < pos ==> #[trigger] after[k] == before[k]
            &&& forall|k: int| pos < k < after.len() ==> #[trigger] after[k] == before[k - 1]
        },
    ensures
        inverted_ok(after, docs.push(partial(d, j + 1))),
{
    let t = d.keywords[j];
    let now = docs.push(partial(d, j));
    let next = docs.push(partial(d, j + 1));
    if !found {
        assert forall|i: int| 0 <= i < now.len() implies !(#[trigger] now[i]).keywords.contains(
            t,
        ) by {
            if now[i].keywords.contains(t) {
                assert(has_key(before, t));
            }
        }
        lemma_no_posting(now, t);
    }
    lemma_one_more(docs, d, j, t);
    assert forall|k: int| 0 <= k < after.len() implies (#[trigger] after[k]).docs@ == posting_of(
        next,
        after[k].token@,
    ) && after[k].docs@.len() > 0 by {
        if k != pos {
            let k0 = if found || k < pos {
                k
            } else {
                k - 1
            };
            assert(after[k] == before[k0]);
            if found {
                if k < pos {
                    assert(lex_lt(before[k].token@, before[pos].token@));
                } else {
                    assert(lex_lt(before[pos].token@, before[k].token@));
                }
            }
            lemma_lex_irreflexive(t);
            assert(before[k0].token@ != t);
            lemma_one_more(docs, d, j, before[k0].token@);
        } else if !found {
            assert(posting_of(docs, t) =~= Seq::empty());
        }
    }
    assert(sorted_keys(after)) by {
        assert forall|a: int, b: int| 0 <= a < b < after.len() implies lex_lt(
            (#[trigger] after[a]).token@,
            (#[trigger] after[b]).token@,
        ) by {
            let a0 = if found || a < pos {
                a
            } else {
                a - 1
            };
            let b0 = if found || b < pos {
                b
            } else {
                b - 1
            };
            if found {
                assert(after[a].token@ == before[a].token@);
                assert(after[b].token@ == before[b].token@);
                assert(lex_lt(before[a].token@, before[b].token@));
            } else if a == pos {
                assert(after[b] == before[b0]);
            } else if b == pos {
                assert(after[a] == before[a0]);
            } else {
                assert(after[a] == before[a0] && after[b] == before[b0]);
            }
        }
    }
    assert forall|i: int, x: Seq<char>|
        0 <= i < next.len() && #[trigger] next[i].keywords.contains(x) implies has_key(after, x) by {
        if x == t {
            assert(after[pos].token@ == x);
        } else {
            if i < docs.len() {
                assert(now[i] == next[i]);
                assert(now[i].keywords.contains(x));
            } else {
                let ka = d.keywords.take(j + 1);
                let m = choose|m: int| 0 <= m < ka.len() && ka[m] == x;
                assert(d.keywords.take(j)[m] == x);
                assert(now[i].keywords.contains(x));
            }
            assert(has_key(before, x));
            let k = choose|k: int| 0 <= k < before.len() && (#[trigger] before[k]).token@ == x;
            if found || k < pos {
                assert(after[k].token@ == x);
            } else {
                assert(after[k + 1].token@ == x);
            }
        }
    }
}

/// Whether no two documents have the same reference.
pub open spec fn refs_unique(docs: Seq<DocView>) -> bool {
    forall|a: int, b: int|
        0 <= a < b < docs.len() ==> (#[trigger] docs[a]).reff != (#[trigger] docs[b]).reff
}

/// The documents but the one with reference `reff`.
pub open spec fn without_ref(docs: Seq<DocView>, reff: RefView) -> Seq<DocView> {
    docs.filter(|d: DocView| d.reff != reff)
}

/// Whether a document is one of those named by their identifiers.
pub open spec fn named_by(d: DocView, l1_ids: Seq<u128>, l2_ids: Seq<i64>) -> bool {
    match d.reff {
        RefView::L1 { id, .. } => l1_ids.contains(id),
        RefView::L2 { id, .. } => l2_ids.contains(id),
        RefView::Pool { .. } => false,
    }
}

/// The documents but those named by their identifiers.
pub open spec fn without_ids(docs: Seq<DocView>, l1_ids: Seq<u128>, l2_ids: Seq<i64>) -> Seq<
    DocView,
> {
    docs.filter(|d: DocView| !named_by(d, l1_ids, l2_ids))
}

proof fn lemma_without_absent(docs: Seq<DocView>, reff: RefView)
    requires
        forall|i: int| 0 <= i < docs.len() ==> (#[trigger] docs[i]).reff != reff,
    ensures
        without_ref(docs, reff) == docs,
    decreases docs.len(),
{
    reveal(Seq::filter);
    if docs.len() > 0 {
        let rest = docs.drop_last();
        assert forall|i: int| 0 <= i < rest.len() implies (#[trigger] rest[i]).reff != reff by {
            assert(rest[i] == docs[i]);
        }
        lemma_without_absent(rest, reff);
        assert(docs[docs.len() - 1].reff != reff);
        assert(rest.push(docs.last()) =~= docs);
    } else {
        assert(without_ref(docs, reff) =~= docs);
    }
}

proof fn lemma_without_present(docs: Seq<DocView>, reff: RefView, pos: int)
    requires
        refs_unique(docs),
        0 <= pos < docs.len(),
        docs[pos].reff == reff,
    ensures
        without_ref(docs, reff) == docs.remove(pos),
    decreases docs.len(),
{
    reveal(Seq::filter);
    let rest = docs.drop_last();
    if pos == docs.len() - 1 {
        assert forall|i: int| 0 <= i < rest.len() implies (#[trigger] rest[i]).reff != reff by {
            assert(rest[i] == docs[i]);
            assert(docs[i].reff != docs[pos].reff);
        }
        lemma_without_absent(rest, reff);
        assert(docs.remove(pos) =~= rest);
    } else {
        assert(refs_unique(rest)) by {
            assert forall|a: int, b: int| 0 <= a < b < rest.len() implies (#[trigger] rest[a]).reff
                != (#[trigger] rest[b]).reff by {
                assert(rest[a] == docs[a] && rest[b] == docs[b]);
            }
        }
        lemma_without_present(rest, reff, pos);
        assert(docs[pos].reff != docs[docs.len() - 1].reff);
        assert(docs.remove(pos) =~= rest.remove(pos).push(docs.last()));
    }
}

/// A part of distinct references has distinct references, and they are among the whole.
proof fn lemma_filter_refs(docs: Seq<DocView>, keep: spec_fn(DocView) -> bool)
    requires
        refs_unique(docs),
    ensures
        refs_unique(docs.filter(keep)),
        docs.filter(keep).len() <= docs.len(),
        forall|i: int|
            0 <= i < docs.filter(keep).len() ==> docs.contains(#[trigger] docs.filter(keep)[i])
                && keep(docs.filter(keep)[i]),
    decreases docs.len(),
{
    reveal(Seq::filter);
    if docs.len() > 0 {
        let rest = docs.drop_last();
        assert(refs_unique(rest)) by {
            assert forall|a: int, b: int| 0 <= a < b < rest.len() implies (#[trigger] rest[a]).reff
                != (#[trigger] rest[b]).reff by {
                assert(rest[a] == docs[a] && rest[b] == docs[b]);
            }
        }
        lemma_filter_refs(rest, keep);
        let f = rest.filter(keep);
        let g = docs.filter(keep);
        assert forall|i: int| 0 <= i < g.len() implies docs.contains(#[trigger] g[i]) && keep(
            g[i],
        ) by {
            if i < f.len() {
                assert(g[i] == f[i]);
                let m = choose|m: int| 0 <= m < rest.len() && rest[m] == f[i];
                assert(docs[m] == g[i]);
            } else {
                assert(docs[docs.len() - 1] == g[i]);
            }
        }
        assert forall|a: int, b: int| 0 <= a < b < g.len() implies (#[trigger] g[a]).reff != (
        #[trigger] g[b]).reff by {
            assert(g[a] == f[a]);
            if b < f.len() {
                assert(g[b] == f[b]);
            } else {
                let m = choose|m: int| 0 <= m < rest.len() && rest[m] == f[a];
                assert(docs[m] == f[a]);
                assert(docs[m].reff != docs[docs.len() - 1].reff);
            }
        }
    }
}

/// The inverted index: documents with their keywords, and for each keyword the documents
/// that have it.
#[derive(Debug)]
pub struct KeywordIndex {
    docs: Vec<DocEntry>,
    inverted: Vec<Posting>,
}

impl View for KeywordIndex {
    type V = Seq<DocView>;

    closed spec fn view(&self) -> Seq<DocView> {
        doc_views(self.docs@)
    }
}

impl KeywordIndex {
    /// Whether the postings are those of the documents, the references are distinct, and
    /// none is a dictionary entry.
    pub closed spec fn wf(&self) -> bool {
        &&& inverted_ok(self.inverted@, self@)
        &&& refs_unique(self@)
        &&& forall|i: int| 0 <= i < self@.len() ==> !((#[trigger] self@[i]).reff is Pool)
        &&& self@.len() <= usize::MAX
    }

    /// The keywords of the index, in the order of texts.
    pub closed spec fn vocabulary(&self) -> Seq<Seq<char>> {
        self.inverted@.map_values(|p: Posting| p.token@)
    }

    /// The documents of an index have distinct references, none of them a dictionary entry,
    /// and the vocabulary lists their keywords, sorted and each once.
    pub proof fn law_wf(&self)
        requires
            self.wf(),
        ensures
            refs_unique(self@),
            forall|i: int| 0 <= i < self@.len() ==> !((#[trigger] self@[i]).reff is Pool),
            is_vocabulary(self.vocabulary(), self@),
    {
        let v = self.vocabulary();
        let docs = self@;
        assert forall|t: Seq<char>| #[trigger] v.contains(t) <==> exists|i: int|
            0 <= i < docs.len() && (#[trigger] docs[i]).keywords.contains(t) by {
            lemma_posting(docs, t);
            if v.contains(t) {
                let k = choose|k: int| 0 <= k < v.len() && v[k] == t;
                assert(self.inverted@[k].token@ == t);
                assert(self.inverted@[k].docs@.len() > 0);
                let i = posting_of(docs, t)[0] as int;
                assert(docs[i].keywords.contains(t));
            }
            if exists|i: int| 0 <= i < docs.len() && (#[trigger] docs[i]).keywords.contains(t) {
                assert(has_key(self.inverted@, t));
                let k = choose|k: int|
                    0 <= k < self.inverted@.len() && (#[trigger] self.inverted@[k]).token@ == t;
                assert(v[k] == t);
            }
        }
    }

    /// An index without documents.
    pub fn new() -> (r: KeywordIndex)
        ensures
            r.wf(),
            r@ == Seq::<DocView>::empty(),
    {
        let r = KeywordIndex { docs: Vec::new(), inverted: Vec::new() };
        assert(r@ =~= Seq::<DocView>::empty());
        r
    }

    /// Computes all postings anew.
    fn rebuild_inverted(&mut self)
        requires
            refs_unique(old(self)@),
            forall|i: int| 0 <= i < old(self)@.len() ==> !((#[trigger] old(self)@[i]).reff is Pool),
        ensures
            final(self).wf(),
            final(self)@ == old(self)@,
    {
        let mut inv: Vec<Posting> = Vec::new();
        let mut i: usize = 0;
        let n: usize = self.docs.len();
        assert(self@.take(0) =~= Seq::<DocView>::empty());
        while i < n
            invariant
                i <= n,
                n == self.docs@.len(),
                self@ == old(self)@,
                inverted_ok(inv@, self@.take(i as int)),
            decreases self.docs@.len() - i,
        {
            let ghost d = self@[i as int];
            add_terms(
                &mut inv,
                &self.docs[i].keywords,
                i,
                Ghost(self@.take(i as int)),
                Ghost(d),
            );
            assert(self@.take(i as int).push(d) =~= self@.take(i + 1));
            i += 1;
        }
        assert(self@.take(i as int) =~= self@);
        self.inverted = inv;
    }

    /// Enters a document with its keywords. A document with the same reference is replaced.
    pub fn index(&mut self, reff: KeywordRef, keywords: KeywordSet, salience: Real, created_at: i64)
        requires
            old(self).wf(),
            !(reff@ is Pool),
            old(self)@.len() < usize::MAX,
        ensures
            final(self).wf(),
            final(self)@ == without_ref(old(self)@, reff@).push(
                DocView {
                    reff: reff@,
                    keywords: keywords@,
                    salience: unit_clamped(salience),
                    created_at,
                },
            ),
    {
        self.remove(&reff);
        let ghost docs = self@;
        let ghost inv_before = self.inverted@;
        let idx: usize = self.docs.len();
        let entry = DocEntry { reff, keywords, salience: clamp_unit(salience), created_at };
        let ghost d = entry.view();
        add_terms(&mut self.inverted, &entry.keywords, idx, Ghost(docs), Ghost(d));
        self.docs.push(entry);
        proof {
            assert(self@ =~= docs.push(d));
            lemma_filter_refs(old(self)@, |x: DocView| x.reff != reff@);
            assert forall|a: int, b: int| 0 <= a < b < self@.len() implies (#[trigger] self@[a]).reff
                != (#[trigger] self@[b]).reff by {
                assert(self@[a] == docs[a]);
                if b < docs.len() {
                    assert(self@[b] == docs[b]);
                }
            }
        }
    }

    /// Enters a document whose keywords stand between commas; gives the number of documents.
    pub fn index_parsed(
        &mut self,
        reff: KeywordRef,
        raw_keywords: Option<&str>,
        salience: Real,
        created_at: i64,
    ) -> (r: usize)
        requires
            old(self).wf(),
            !(reff@ is Pool),
            old(self)@.len() < usize::MAX,
        ensures
            final(self).wf(),
            final(self)@ == without_ref(old(self)@, reff@).push(
                DocView {
                    reff: reff@,
                    keywords: parsed_keywords(
                        match raw_keywords {
                            Some(s) => Some(s@),
                            None => None,
                        },
                    ),
                    salience: unit_clamped(salience),
                    created_at,
                },
            ),
            r == final(self)@.len(),
    {
        let raw = match raw_keywords {
            Some(s) => s,
            None => "",
        };
        proof {
            reveal_strlit("");
            assert(""@ =~= Seq::<char>::empty());
        }
        let n = CommaSeparatedNormalizer;
        let tokens = n.normalize(raw);
        let keywords = KeywordSet::from_tokens(tokens);
        self.index(reff, keywords, salience, created_at);
        self.docs.len()
    }

    /// Takes a document out; false where there is none with this reference.
    pub fn remove(&mut self, reff: &KeywordRef) -> (r: bool)
        requires
            old(self).wf(),
        ensures
            final(self).wf(),
            final(self)@ == without_ref(old(self)@, reff@),
            r == exists|i: int|
                0 <= i < old(self)@.len() && (#[trigger] old(self)@[i]).reff == reff@,
    {
        let mut pos: usize = 0;
        while pos < self.docs.len() && !self.docs[pos].reff.same(reff)
            invariant
                pos <= self.docs@.len(),
                self == old(self),
                forall|k: int| 0 <= k < pos ==> (#[trigger] self@[k]).reff != reff@,
            decreases self.docs@.len() - pos,
        {
            pos += 1;
        }
        if pos == self.docs.len() {
            proof {
                lemma_without_absent(self@, reff@);
            }
            return false;
        }
        proof {
            assert(self@[pos as int].reff == reff@);
            lemma_without_present(self@, reff@, pos as int);
            lemma_filter_refs(self@, |d: DocView| d.reff != reff@);
        }
        self.docs.remove(pos);
        proof {
            assert(self@ =~= old(self)@.remove(pos as int));
            assert forall|i: int| 0 <= i < self@.len() implies !((#[trigger] self@[i]).reff is Pool)
            by {
                assert(old(self)@.contains(self@[i]));
            }
        }
        self.rebuild_inverted();
        true
    }

    /// Takes out the documents with the given identifiers; gives their number.
    pub fn remove_doc_batch(&mut self, l1_ids: &[u128], l2_ids: &[i64]) -> (r: usize)
        requires
            old(self).wf(),
        ensures
            final(self).wf(),
            final(self)@ == without_ids(old(self)@, l1_ids@, l2_ids@),
            r == old(self)@.len() - final(self)@.len(),
    {
        let ghost all = self@;
        let ghost keep = |d: DocView| !named_by(d, l1_ids@, l2_ids@);
        let before: usize = self.docs.len();
        let mut i: usize = 0;
        let mut seen: usize = 0;
        proof {
            reveal(Seq::filter);
            assert(self@ =~= all.take(0).filter(keep) + all.skip(0));
        }
        while seen < before
            invariant
                seen <= before,
                before == all.len(),
                keep == (|d: DocView| !named_by(d, l1_ids@, l2_ids@)),
                self@ == all.take(seen as int).filter(keep) + all.skip(seen as int),
                i == all.take(seen as int).filter(keep).len(),
            decreases before - seen,
        {
            let ghost f = all.take(seen as int).filter(keep);
            proof {
                reveal(Seq::filter);
                assert(all.take(seen + 1).drop_last() =~= all.take(seen as int));
                assert(all.take(seen + 1).last() == all[seen as int]);
                assert(self@.len() == self.docs@.len());
                assert(self@[i as int] == all[seen as int]);
                assert(self@[i as int] == self.docs@[i as int].view());
            }
            let gone = match &self.docs[i].reff {
                KeywordRef::L1 { id, .. } => has_u128(l1_ids, *id),
                KeywordRef::L2 { id, .. } => has_i64(l2_ids, *id),
                KeywordRef::Pool { .. } => false,
            };
            assert(gone == !keep(all[seen as int]));
            if gone {
                let ghost now = self@;
                self.docs.remove(i);
                proof {
                    assert(self@ =~= now.remove(i as int));
                    assert(self@ =~= f + all.skip(seen + 1));
                }
            } else {
                i += 1;
                proof {
                    assert(self@ =~= f.push(all[seen as int]) + all.skip(seen + 1));
                }
            }
            seen += 1;
        }
        proof {
            assert(all.take(seen as int) =~= all);
            assert(self@ =~= all.filter(keep));
            lemma_filter_refs(all, keep);
            assert forall|k: int| 0 <= k < self@.len() implies !((#[trigger] self@[k]).reff is Pool)
            by {
                assert(all.contains(self@[k]));
            }
        }
        self.rebuild_inverted();
        before - self.docs.len()
    }

    /// Takes all documents out.
    pub fn clear(&mut self)
        ensures
            final(self).wf(),
            final(self)@ == Seq::<DocView>::empty(),
    {
        self.docs = Vec::new();
        self.inverted = Vec::new();
        assert(self@ =~= Seq::<DocView>::empty());
    }

    /// The number of documents.
    pub fn doc_count(&self) -> (r: usize)
        ensures
            r == self@.len(),
    {
        self.docs.len()
    }

    /// Whether there are no documents.
    pub fn is_empty(&self) -> (r: bool)
        ensures
            r == (self@.len() == 0),
    {
        self.docs.len() == 0
    }
}

/// The keywords of a field that may be missing.
pub open spec fn parsed_keywords(raw: Option<Seq<char>>) -> Seq<Seq<char>> {
    let n = CommaSeparatedNormalizer;
    distinct(
        n.tokens(
            match raw {
                Some(s) => s,
                None => Seq::empty(),
            },
        ),
    )
}

fn has_u128(v: &[u128], x: u128) -> (r: bool)
    ensures
        r == v@.contains(x),
{
    let mut i: usize = 0;
    while i < v.len()
        invariant
            i <= v@.len(),
            forall|j: int| 0 <= j < i ==> v@[j] != x,
        decreases v@.len() - i,
    {
        if v[i] == x {
            return true;
        }
        i += 1;
    }
    false
}

fn has_i64(v: &[i64], x: i64) -> (r: bool)
    ensures
        r == v@.contains(x),
{
    let mut i: usize = 0;
    while i < v.len()
        invariant
            i <= v@.len(),
            forall|j: int| 0 <= j < i ==> v@[j] != x,
        decreases v@.len() - i,
    {
        if v[i] == x {
            return true;
        }
        i += 1;
    }
    false
}

/// How a query keyword is matched with the keywords of documents.
#[derive(Debug, Clone, Copy, PartialEq, Eq, Structural)]
pub enum MatchStrategy {
    /// The document has the query keyword.
    Exact,
    /// The document has a keyword of which the query keyword is a part.
    Substring,
}

/// A search for documents.
#[derive(Debug)]
pub struct KeywordQuery {
    pub keywords: KeywordSet,
    pub persona_uid: Option<String>,
    pub top_k: usize,
    pub strategy: MatchStrategy,
}

/// What a `KeywordQuery` says.
pub struct QueryView {
    pub keywords: Seq<Seq<char>>,
    pub persona_uid: Option<Seq<char>>,
    pub top_k: usize,
    pub strategy: MatchStrategy,
}

impl View for KeywordQuery {
    type V = QueryView;

    open spec fn view(&self) -> QueryView {
        QueryView {
            keywords: self.keywords@,
            persona_uid: opt_text(self.persona_uid),
            top_k: self.top_k,
            strategy: self.strategy,
        }
    }
}

/// Whether a document may be found for the persona: one that is not named, or named by an
/// empty text, is no restriction.
pub open spec fn visible_to(persona: Option<Seq<char>>, reff: RefView) -> bool {
    match persona {
        Some(p) => p.len() == 0 || reff.persona() == Some(p),
        None => true,
    }
}

/// Whether one of the query keywords is a part of `t`.
pub open spec fn part_of_term(keywords: Seq<Seq<char>>, t: Seq<char>) -> bool {
    exists|q: int| 0 <= q < keywords.len() && occurs_in(t, #[trigger] keywords[q])
}

/// The keywords of documents that a query asks for: its own, or, from the vocabulary `v`,
/// those of which one of its own is a part.
pub open spec fn query_terms(query: QueryView, v: Seq<Seq<char>>) -> Seq<Seq<char>> {
    match query.strategy {
        MatchStrategy::Exact => query.keywords,
        MatchStrategy::Substring => v.filter(|t: Seq<char>| part_of_term(query.keywords, t)),
    }
}

/// For document `i`, the document frequency of each of the terms that it has.
pub open spec fn term_frequencies(docs: Seq<DocView>, terms: Seq<Seq<char>>, i: int) -> Seq<usize>
    decreases terms.len(),
{
    if terms.len() == 0 {
        Seq::empty()
    } else {
        let front = term_frequencies(docs, terms.drop_last(), i);
        if docs[i].keywords.contains(terms.last()) {
            front.push(doc_frequency(docs, terms.last()) as usize)
        } else {
            front
        }
    }
}

/// A document that matches a query, with the document frequencies of the matched terms.
#[derive(Debug)]
pub struct Candidate {
    pub doc: usize,
    pub frequencies: Vec<usize>,
}

/// The matches among the first `n` documents, in their order.
pub open spec fn candidates_among(
    docs: Seq<DocView>,
    terms: Seq<Seq<char>>,
    persona: Option<Seq<char>>,
    n: int,
) -> Seq<(usize, Seq<usize>)>
    decreases n,
{
    if n <= 0 {
        Seq::empty()
    } else {
        let front = candidates_among(docs, terms, persona, n - 1);
        let f = term_frequencies(docs, terms, n - 1);
        if f.len() > 0 && visible_to(persona, docs[n - 1].reff) {
            front.push(((n - 1) as usize, f))
        } else {
            front
        }
    }
}

/// The documents that match a query, in their order.
pub open spec fn query_candidates(
    docs: Seq<DocView>,
    query: QueryView,
    v: Seq<Seq<char>>,
) -> Seq<(usize, Seq<usize>)> {
    if query.keywords.len() == 0 || query.top_k == 0 {
        Seq::empty()
    } else {
        candidates_among(docs, query_terms(query, v), query.persona_uid, docs.len() as int)
    }
}

/// What a sequence of candidates says.
pub open spec fn candidate_views(cs: Seq<Candidate>) -> Seq<(usize, Seq<usize>)> {
    cs.map_values(|c: Candidate| (c.doc, c.frequencies@))
}

/// Whether one of the query keywords is a part of `t`.
fn is_part_of_term(keywords: &Vec<KeywordToken>, t: &KeywordToken) -> (r: bool)
    ensures
        r == part_of_term(token_texts(keywords@), t@),
{
    let whole = chars_of(t.as_str());
    let mut q: usize = 0;
    while q < keywords.len()
        invariant
            q <= keywords@.len(),
            whole@ == t@,
            forall|j: int| 0 <= j < q ==> !occurs_in(t@, #[trigger] keywords@[j]@),
        decreases keywords@.len() - q,
    {
        let p = chars_of(keywords[q].as_str());
        if holds_part(&whole, &p) {
            assert(occurs_in(t@, token_texts(keywords@)[q as int]));
            return true;
        }
        q += 1;
    }
    assert forall|j: int| 0 <= j < token_texts(keywords@).len() implies !occurs_in(
        t@,
        #[trigger] token_texts(keywords@)[j],
    ) by {
        assert(token_texts(keywords@)[j] == keywords@[j]@);
    }
    false
}

/// A term that no document has changes nothing.
proof fn lemma_absent_term(docs: Seq<DocView>, terms: Seq<Seq<char>>, t: Seq<char>, i: int)
    requires
        0 <= i < docs.len(),
        !docs[i].keywords.contains(t),
    ensures
        term_frequencies(docs, terms.push(t), i) == term_frequencies(docs, terms, i),
{
    assert(terms.push(t).drop_last() =~= terms);
}

impl KeywordIndex {
    /// Notes the frequency of a keyword with each document that has it.
    fn note_term(&self, k: usize, freqs: &mut Vec<Vec<usize>>)
        requires
            self.wf(),
            k < self.inverted@.len(),
            old(freqs)@.len() == self@.len(),
        ensures
            final(freqs)@.len() == self@.len(),
            forall|i: int|
                0 <= i < self@.len() ==> (#[trigger] final(freqs)@[i])@ == (
                if self@[i].keywords.contains(self.inverted@[k as int].token@) {
                    old(freqs)@[i]@.push(
                        doc_frequency(self@, self.inverted@[k as int].token@) as usize,
                    )
                } else {
                    old(freqs)@[i]@
                }),
    {
        let posting = &self.inverted[k].docs;
        let n: usize = posting.len();
        let ghost t = self.inverted@[k as int].token@;
        proof {
            lemma_posting(self@, t);
        }
        let mut p: usize = 0;
        while p < n
            invariant
                p <= n,
                n == posting@.len(),
                n == doc_frequency(self@, t),
                posting@ == posting_of(self@, t),
                freqs@.len() == self@.len() <= usize::MAX,
                old(freqs)@.len() == self@.len(),
                forall|a: int|
                    0 <= a < posting@.len() ==> (#[trigger] posting@[a]) < self@.len(),
                forall|a: int, b: int|
                    0 <= a < b < posting@.len() ==> #[trigger] posting@[a] < #[trigger] posting@[b],
                forall|i: int|
                    0 <= i < self@.len() ==> (#[trigger] freqs@[i])@ == (if posting@.take(
                        p as int,
                    ).contains(i as usize) {
                        old(freqs)@[i]@.push(n)
                    } else {
                        old(freqs)@[i]@
                    }),
            decreases n - p,
        {
            let d: usize = posting[p];
            let ghost before = freqs@;
            proof {
                assert(!posting@.take(p as int).contains(d)) by {
                    if posting@.take(p as int).contains(d) {
                        let a = choose|a: int|
                            0 <= a < posting@.take(p as int).len() && posting@.take(p as int)[a]
                                == d;
                        assert(posting@[a] < posting@[p as int]);
                    }
                }
            }
            freqs[d].push(n);
            p += 1;
            proof {
                let now = posting@.take(p as int);
                let prev = posting@.take(p - 1);
                assert(now =~= prev.push(d));
                assert forall|i: int| 0 <= i < self@.len() implies (#[trigger] freqs@[i])@ == (
                if now.contains(i as usize) {
                    old(freqs)@[i]@.push(n)
                } else {
                    old(freqs)@[i]@
                }) by {
                    if i == d {
                        assert(now[p - 1] == i as usize);
                        assert(before[i]@ == old(freqs)@[i]@);
                    } else {
                        assert(freqs@[i] == before[i]);
                        if now.contains(i as usize) {
                            let a = choose|a: int| 0 <= a < now.len() && now[a] == i as usize;
                            assert(prev[a] == i as usize);
                        }
                        if prev.contains(i as usize) {
                            let a = choose|a: int| 0 <= a < prev.len() && prev[a] == i as usize;
                            assert(now[a] == i as usize);
                        }
                    }
                }
            }
        }
        proof {
            assert(posting@.take(p as int) =~= posting@);
            assert forall|i: int| 0 <= i < self@.len() implies (#[trigger] freqs@[i])@ == (
            if self@[i].keywords.contains(t) {
                old(freqs)@[i]@.push(n)
            } else {
                old(freqs)@[i]@
            }) by {
                if posting@.contains(i as usize) {
                    let a = choose|a: int| 0 <= a < posting@.len() && posting@[a] == i as usize;
                    assert(self@[posting_of(self@, t)[a] as int].keywords.contains(t));
                }
            }
        }
    }

    /// The document frequencies of the matched terms, for every document.
    fn frequencies(&self, query: &KeywordQuery) -> (r: Vec<Vec<usize>>)
        requires
            self.wf(),
        ensures
            r@.len() == self@.len(),
            forall|i: int|
                0 <= i < self@.len() ==> (#[trigger] r@[i])@ == term_frequencies(
                    self@,
                    query_terms(query@, self.vocabulary()),
                    i,
                ),
    {
        let mut freqs: Vec<Vec<usize>> = Vec::new();
        let mut i: usize = 0;
        let n: usize = self.docs.len();
        while i < n
            invariant
                i <= n,
                freqs@.len() == i,
                forall|j: int| 0 <= j < i ==> (#[trigger] freqs@[j])@ == Seq::<usize>::empty(),
            decreases n - i,
        {
            freqs.push(Vec::new());
            i += 1;
        }
        let keywords = query.keywords.tokens();
        let ghost words = token_texts(keywords@);
        match query.strategy {
            MatchStrategy::Exact => {
                let mut q: usize = 0;
                assert(words.take(0) =~= Seq::<Seq<char>>::empty());
                while q < keywords.len()
                    invariant
                        self.wf(),
                        q <= keywords@.len(),
                        words == token_texts(keywords@),
                        freqs@.len() == self@.len(),
                        forall|i: int|
                            0 <= i < self@.len() ==> (#[trigger] freqs@[i])@ == term_frequencies(
                                self@,
                                words.take(q as int),
                                i,
                            ),
                    decreases keywords@.len() - q,
                {
                    let t = &keywords[q];
                    let (pos, found) = locate(&self.inverted, t);
                    let ghost before = freqs@;
                    assert(words.take(q + 1) =~= words.take(q as int).push(t@));
                    assert(words.take(q + 1).drop_last() =~= words.take(q as int));
                    if found {
                        self.note_term(pos, &mut freqs);
                    } else {
                        proof {
                            assert forall|i: int| 0 <= i < self@.len() implies (
                            #[trigger] freqs@[i])@ == term_frequencies(
                                self@,
                                words.take(q + 1),
                                i,
                            ) by {
                                if self@[i].keywords.contains(t@) {
                                    assert(has_key(self.inverted@, t@));
                                }
                                lemma_absent_term(self@, words.take(q as int), t@, i);
                            }
                        }
                    }
                    q += 1;
                }
                assert(words.take(q as int) =~= words);
            },
            MatchStrategy::Substring => {
                let ghost vocab = self.vocabulary();
                let ghost hit = |t: Seq<char>| part_of_term(query@.keywords, t);
                let mut k: usize = 0;
                proof {
                    reveal(Seq::filter);
                    assert(vocab.take(0) =~= Seq::<Seq<char>>::empty());
                }
                while k < self.inverted.len()
                    invariant
                        self.wf(),
                        k <= self.inverted@.len(),
                        vocab == self.vocabulary(),
                        token_texts(keywords@) == query@.keywords,
                        hit == (|t: Seq<char>| part_of_term(query@.keywords, t)),
                        freqs@.len() == self@.len(),
                        forall|i: int|
                            0 <= i < self@.len() ==> (#[trigger] freqs@[i])@ == term_frequencies(
                                self@,
                                vocab.take(k as int).filter(hit),
                                i,
                            ),
                    decreases self.inverted@.len() - k,
                {
                    let ghost t = self.inverted@[k as int].token@;
                    let ghost terms = vocab.take(k as int).filter(hit);
                    proof {
                        reveal(Seq::filter);
                        assert(vocab.take(k + 1).drop_last() =~= vocab.take(k as int));
                        assert(vocab.take(k + 1).last() == t);
                        assert(terms.push(t).drop_last() =~= terms);
                    }
                    if is_part_of_term(keywords, &self.inverted[k].token) {
                        self.note_term(k, &mut freqs);
                    }
                    k += 1;
                }
                assert(vocab.take(k as int) =~= vocab);
            },
        }
        freqs
    }

    /// The documents that match a query, each with the document frequencies of the terms
    /// that it was matched by.
    pub fn candidates(&self, query: &KeywordQuery) -> (r: Vec<Candidate>)
        requires
            self.wf(),
        ensures
            candidate_views(r@) == query_candidates(self@, query@, self.vocabulary()),
            forall|c: int| 0 <= c < r@.len() ==> (#[trigger] r@[c]).doc < self@.len(),
    {
        let mut out: Vec<Candidate> = Vec::new();
        assert(candidate_views(out@) =~= Seq::<(usize, Seq<usize>)>::empty());
        if query.keywords.is_empty() || query.top_k == 0 {
            return out;
        }
        let mut freqs = self.frequencies(query);
        let ghost terms = query_terms(query@, self.vocabulary());
        let ghost all = freqs@;
        let n: usize = self.docs.len();
        let mut i: usize = 0;
        while i < n
            invariant
                i <= n,
                n == self@.len(),
                n == self.docs@.len(),
                all.len() == n,
                freqs@.len() == n,
                forall|j: int| i <= j < n ==> #[trigger] freqs@[j] == all[j],
                forall|j: int|
                    0 <= j < n ==> (#[trigger] all[j])@ == term_frequencies(self@, terms, j),
                candidate_views(out@) == candidates_among(
                    self@,
                    terms,
                    query@.persona_uid,
                    i as int,
                ),
                forall|c: int| 0 <= c < out@.len() ==> (#[trigger] out@[c]).doc < n,
            decreases n - i,
        {
            let mut f: Vec<usize> = Vec::new();
            std::mem::swap(&mut f, &mut freqs[i]);
            assert(f@ == all[i as int]@);
            let shown = match &query.persona_uid {
                Some(p) => {
                    if p.as_str().is_empty() {
                        true
                    } else {
                        match self.docs[i].reff.persona_uid() {
                            Some(owner) => same_text(owner, p.as_str()),
                            None => false,
                        }
                    }
                },
                None => true,
            };
            assert(self@[i as int] == self.docs@[i as int].view());
            assert(shown == visible_to(query@.persona_uid, self@[i as int].reff));
            if f.len() > 0 && shown {
                let ghost before = candidate_views(out@);
                let ghost fs = f@;
                out.push(Candidate { doc: i, frequencies: f });
                assert(candidate_views(out@) =~= before.push((i, fs)));
            }
            i += 1;
        }
        out
    }
}

/// The hits with a score above zero.
pub open spec fn positive_hits(hits: Seq<(usize, Real)>) -> Seq<(usize, Real)> {
    hits.filter(|h: (usize, Real)| (Real { bits: 0 }).lt(h.1))
}

/// The key by which a hit is ranked: higher scores first, then newer documents, then by
/// label.
pub open spec fn hit_key(docs: Seq<DocView>, h: (usize, Real)) -> Seq<i128> {
    let d = docs[h.0 as int];
    let label = match d.reff.label() {
        Some(l) => l,
        None => Seq::empty(),
    };
    seq![(-h.1.rank()) as i128, (-d.created_at) as i128] + code_points(label)
}

/// The code points of a text.
pub open spec fn code_points(s: Seq<char>) -> Seq<i128> {
    s.map_values(|c: char| (c as u32) as i128)
}

/// The keys of a sequence of hits.
pub open spec fn hit_keys(docs: Seq<DocView>, hits: Seq<(usize, Real)>) -> Seq<Seq<i128>> {
    hits.map_values(|h: (usize, Real)| hit_key(docs, h))
}

/// The first `top_k` of the hits in the order `p`.
pub open spec fn picked_hits(
    docs: Seq<DocView>,
    hits: Seq<(usize, Real)>,
    p: Seq<usize>,
    top_k: usize,
) -> Seq<(RefView, Real)> {
    Seq::new(
        if top_k < hits.len() {
            top_k as nat
        } else {
            hits.len()
        },
        |j: int| (docs[hits[p[j] as int].0 as int].reff, hits[p[j] as int].1),
    )
}

/// Whether `r` is the ranking of the hits: those with a score above zero, in the order of
/// their keys, at most `top_k` of them.
pub open spec fn is_ranking(
    docs: Seq<DocView>,
    hits: Seq<(usize, Real)>,
    top_k: usize,
    r: Seq<(RefView, Real)>,
) -> bool {
    exists|p: Seq<usize>| #[trigger]
        ordered_by(p, hit_keys(docs, positive_hits(hits))) && r == picked_hits(
            docs,
            positive_hits(hits),
            p,
            top_k,
        )
}

/// What a sequence of results says.
pub open spec fn result_views(r: Seq<(KeywordRef, Real)>) -> Seq<(RefView, Real)> {
    r.map_values(|x: (KeywordRef, Real)| (x.0@, x.1))
}

/// Gives a matching document its score.
///
/// The terms that matched are told by their document frequencies, of `doc_count` documents
/// in all. Whoever implements this decides the score; nothing is promised of it here.
pub trait ScoringStrategy {
    fn score(
        &self,
        doc_count: usize,
        frequencies: &Vec<usize>,
        salience: Real,
        created_at: i64,
        now_ms: i64,
    ) -> Real;
}

/// Whether `s` is an answer of the scorer for a document that was matched by terms of these
/// document frequencies, of `n` documents in all.
pub open spec fn scored_as<S: ScoringStrategy>(
    scorer: &S,
    n: nat,
    frequencies: Seq<usize>,
    doc: DocView,
    now_ms: i64,
    s: Real,
) -> bool {
    exists|count: usize, list: Vec<usize>|
        count == n && list@ == frequencies && #[trigger] call_ensures(
            S::score,
            (scorer, count, &list, doc.salience, doc.created_at, now_ms),
            s,
        )
}

/// Whether the scorer was asked for every candidate, and gave these scores.
pub open spec fn all_scored<S: ScoringStrategy>(
    scorer: &S,
    docs: Seq<DocView>,
    cs: Seq<(usize, Seq<usize>)>,
    now_ms: i64,
    scores: Seq<Real>,
) -> bool {
    &&& scores.len() == cs.len()
    &&& forall|i: int|
        0 <= i < cs.len() ==> scored_as(
            scorer,
            docs.len(),
            cs[i].1,
            docs[cs[i].0 as int],
            now_ms,
            #[trigger] scores[i],
        )
}

/// The score of each candidate, where `scores` are the answers of the scorer.
pub open spec fn scored(
    cs: Seq<(usize, Seq<usize>)>,
    scores: Seq<Real>,
) -> Seq<(usize, Real)> {
    Seq::new(cs.len(), |i: int| (cs[i].0, scores[i]))
}

/// Whether `r` is what a search of `docs` gives, where the scorer answers for each document
/// that matches.
pub open spec fn is_answer<S: ScoringStrategy>(
    scorer: &S,
    now_ms: i64,
    docs: Seq<DocView>,
    v: Seq<Seq<char>>,
    query: QueryView,
    r: Seq<(RefView, Real)>,
) -> bool {
    exists|scores: Seq<Real>|
        all_scored(scorer, docs, query_candidates(docs, query, v), now_ms, scores) && is_ranking(
            docs,
            #[trigger] scored(query_candidates(docs, query, v), scores),
            query.top_k,
            r,
        )
}

/// Appends the code points of a text to a key.
pub fn push_code_points(key: &mut Vec<i128>, s: &[char])
    ensures
        final(key)@ == old(key)@ + code_points(s@),
{
    let mut i: usize = 0;
    assert(key@ =~= old(key)@ + code_points(s@.take(0)));
    while i < s.len()
        invariant
            i <= s@.len(),
            key@ == old(key)@ + code_points(s@.take(i as int)),
        decreases s@.len() - i,
    {
        let n: u32 = s[i] as u32;
        key.push(n as i128);
        i += 1;
        assert(code_points(s@.take(i as int)) =~= code_points(s@.take(i - 1)).push(
            (s@[i - 1] as u32) as i128,
        ));
        assert(key@ =~= old(key)@ + code_points(s@.take(i as int)));
    }
    assert(s@.take(i as int) =~= s@);
}

impl KeywordIndex {
    /// The key of a hit.
    fn key_of(&self, doc: usize, score: Real) -> (r: Vec<i128>)
        requires
            doc < self@.len(),
        ensures
            r@ == hit_key(self@, (doc, score)),
    {
        let d = &self.docs[doc];
        assert(self@[doc as int] == d.view());
        let mut key: Vec<i128> = Vec::new();
        key.push(score.negated_rank());
        key.push(-(d.created_at as i128));
        match keyword_ref_label(&d.reff) {
            Some(l) => {
                let v = chars_of(l.as_str());
                push_code_points(&mut key, &v);
            },
            None => {
                assert(code_points(Seq::empty()) =~= Seq::<i128>::empty());
            },
        }
        assert(key@ =~= hit_key(self@, (doc, score)));
        key
    }

    /// Ranks scored documents: those with a score above zero, best first; among equal scores
    /// the newer document first, then by label; at most `top_k`.
    pub fn rank(&self, hits: &Vec<(usize, Real)>, top_k: usize) -> (r: Vec<(KeywordRef, Real)>)
        requires
            self.wf(),
            forall|i: int| 0 <= i < hits@.len() ==> (#[trigger] hits@[i]).0 < self@.len(),
        ensures
            is_ranking(self@, hits@, top_k, result_views(r@)),
    {
        let zero = Real { bits: 0 };
        let ghost good = |h: (usize, Real)| (Real { bits: 0 }).lt(h.1);
        let mut kept: Vec<(usize, Real)> = Vec::new();
        let mut keys: Vec<Vec<i128>> = Vec::new();
        let mut i: usize = 0;
        proof {
            reveal(Seq::filter);
            assert(hits@.take(0).filter(good) =~= Seq::<(usize, Real)>::empty());
            assert(key_seqs(keys@) =~= hit_keys(self@, kept@));
        }
        while i < hits.len()
            invariant
                i <= hits@.len(),
                zero == (Real { bits: 0 }),
                good == (|h: (usize, Real)| (Real { bits: 0 }).lt(h.1)),
                kept@ == hits@.take(i as int).filter(good),
                key_seqs(keys@) == hit_keys(self@, kept@),
                forall|j: int| 0 <= j < hits@.len() ==> (#[trigger] hits@[j]).0 < self@.len(),
                forall|j: int| 0 <= j < kept@.len() ==> (#[trigger] kept@[j]).0 < self@.len(),
            decreases hits@.len() - i,
        {
            let h = hits[i];
            proof {
                reveal(Seq::filter);
                assert(hits@.take(i + 1).drop_last() =~= hits@.take(i as int));
                assert(hits@.take(i + 1).last() == h);
            }
            if zero.is_less(&h.1) {
                let ghost before = key_seqs(keys@);
                let key = self.key_of(h.0, h.1);
                let ghost kv = key@;
                keys.push(key);
                kept.push(h);
                assert(key_seqs(keys@) =~= before.push(kv));
                assert(hit_keys(self@, kept@) =~= before.push(kv));
            }
            i += 1;
        }
        assert(hits@.take(i as int) =~= hits@);
        let p = stable_order(&keys);
        assert(kept@ == positive_hits(hits@));
        let mut n: usize = kept.len();
        if top_k < n {
            n = top_k;
        }
        let ghost goal = picked_hits(self@, kept@, p@, top_k);
        let mut out: Vec<(KeywordRef, Real)> = Vec::new();
        let mut j: usize = 0;
        assert(result_views(out@) =~= goal.take(0));
        while j < n
            invariant
                j <= n,
                n == goal.len(),
                n <= kept@.len(),
                p@.len() == kept@.len(),
                forall|m: int| 0 <= m < p@.len() ==> 0 <= #[trigger] p@[m] < kept@.len(),
                forall|m: int| 0 <= m < kept@.len() ==> (#[trigger] kept@[m]).0 < self@.len(),
                goal == picked_hits(self@, kept@, p@, top_k),
                result_views(out@) == goal.take(j as int),
            decreases n - j,
        {
            let h = kept[p[j]];
            let reff = self.docs[h.0].reff.clone();
            assert(self@[h.0 as int] == self.docs@[h.0 as int].view());
            let ghost before = result_views(out@);
            out.push((reff, h.1));
            assert(result_views(out@) =~= before.push(goal[j as int]));
            j += 1;
            assert(goal.take(j as int) =~= goal.take(j - 1).push(goal[j - 1]));
        }
        assert(goal.take(j as int) =~= goal);
        assert(ordered_by(p@, hit_keys(self@, positive_hits(hits@))));
        out
    }

    /// Searches the index, with the given scorer and the given present time.
    pub fn query_with_scorer<S: ScoringStrategy>(
        &self,
        query: &KeywordQuery,
        now_ms: i64,
        scorer: &S,
    ) -> (r: Vec<(KeywordRef, Real)>)
        requires
            self.wf(),
        ensures
            is_answer(scorer, now_ms, self@, self.vocabulary(), query@, result_views(r@)),
    {
        let cs = self.candidates(query);
        let ghost cv = candidate_views(cs@);
        let mut hits: Vec<(usize, Real)> = Vec::new();
        let mut i: usize = 0;
        let ghost mut scores: Seq<Real> = Seq::empty();
        while i < cs.len()
            invariant
                i <= cs@.len(),
                cv == candidate_views(cs@),
                hits@.len() == i,
                scores.len() == i,
                forall|j: int|
                    0 <= j < i ==> #[trigger] hits@[j] == (cs@[j].doc, scores[j]),
                forall|j: int|
                    0 <= j < i ==> scored_as(
                        scorer,
                        self@.len(),
                        cv[j].1,
                        self@[cv[j].0 as int],
                        now_ms,
                        #[trigger] scores[j],
                    ),
                forall|c: int| 0 <= c < cs@.len() ==> (#[trigger] cs@[c]).doc < self@.len(),
            decreases cs@.len() - i,
        {
            let c = &cs[i];
            let d = &self.docs[c.doc];
            let s = scorer.score(
                self.docs.len(),
                &c.frequencies,
                d.salience,
                d.created_at,
                now_ms,
            );
            hits.push((c.doc, s));
            proof {
                assert(cv[i as int] == (c.doc, c.frequencies@));
                assert(self.docs@[c.doc as int]@ == self@[c.doc as int]);
                assert(scored_as(
                    scorer,
                    self@.len(),
                    cv[i as int].1,
                    self@[cv[i as int].0 as int],
                    now_ms,
                    s,
                ));
                scores = scores.push(s);
            }
            i += 1;
        }
        assert(hits@ =~= scored(cv, scores));
        self.rank(&hits, query.top_k)
    }
}

/// The best hits do not depend on how many are asked for: with fewer, the ranking is the
/// beginning of the longer one.
pub proof fn law_fewer_are_the_best(
    docs: Seq<DocView>,
    hits: Seq<(usize, Real)>,
    fewer: usize,
    more: usize,
    r: Seq<(RefView, Real)>,
    s: Seq<(RefView, Real)>,
)
    requires
        fewer <= more,
        is_ranking(docs, hits, fewer, r),
        is_ranking(docs, hits, more, s),
    ensures
        r == s.take(if s.len() < fewer {
            s.len() as int
        } else {
            fewer as int
        }),
{
    let kept = positive_hits(hits);
    let keys = hit_keys(docs, kept);
    let p = choose|p: Seq<usize>| #[trigger]
        ordered_by(p, keys) && r == picked_hits(docs, kept, p, fewer);
    let q = choose|q: Seq<usize>| #[trigger]
        ordered_by(q, keys) && s == picked_hits(docs, kept, q, more);
    law_order_is_unique(p, q, keys);
    assert(r =~= s.take(if s.len() < fewer {
        s.len() as int
    } else {
        fewer as int
    }));
}

/// No document comes out of a search twice, and none with a score that is not above zero.
pub proof fn law_ranking_hits_once(
    docs: Seq<DocView>,
    hits: Seq<(usize, Real)>,
    top_k: usize,
    r: Seq<(RefView, Real)>,
)
    requires
        refs_unique(docs),
        is_ranking(docs, hits, top_k, r),
        forall|i: int| 0 <= i < hits.len() ==> (#[trigger] hits[i]).0 < docs.len(),
        forall|i: int, j: int|
            0 <= i < j < hits.len() ==> (#[trigger] hits[i]).0 != (#[trigger] hits[j]).0,
    ensures
        r.len() <= top_k,
        forall|i: int, j: int|
            0 <= i < j < r.len() ==> (#[trigger] r[i]).0 != (#[trigger] r[j]).0,
        forall|i: int| 0 <= i < r.len() ==> (Real { bits: 0 }).lt((#[trigger] r[i]).1),
{
    let good = |h: (usize, Real)| (Real { bits: 0 }).lt(h.1);
    let kept = positive_hits(hits);
    lemma_hits_filter(hits, good, docs.len() as int);
    let p = choose|p: Seq<usize>| #[trigger]
        ordered_by(p, hit_keys(docs, kept)) && r == picked_hits(docs, kept, p, top_k);
    assert forall|i: int, j: int| 0 <= i < j < r.len() implies (#[trigger] r[i]).0 != (
    #[trigger] r[j]).0 by {
        let a = kept[p[i] as int];
        let b = kept[p[j] as int];
        assert(p[i] != p[j]);
        if p[i] < p[j] {
            assert(a.0 != b.0);
        } else {
            assert(b.0 != a.0);
        }
        if a.0 < b.0 {
            assert(docs[a.0 as int].reff != docs[b.0 as int].reff);
        } else {
            assert(docs[b.0 as int].reff != docs[a.0 as int].reff);
        }
    }
    assert forall|i: int| 0 <= i < r.len() implies (Real { bits: 0 }).lt((#[trigger] r[i]).1) by {
        assert(good(kept[p[i] as int]));
    }
}

proof fn lemma_hits_filter(
    hits: Seq<(usize, Real)>,
    good: spec_fn((usize, Real)) -> bool,
    n: int,
)
    requires
        forall|i: int| 0 <= i < hits.len() ==> (#[trigger] hits[i]).0 < n,
        forall|i: int, j: int|
            0 <= i < j < hits.len() ==> (#[trigger] hits[i]).0 != (#[trigger] hits[j]).0,
    ensures
        forall|i: int|
            0 <= i < hits.filter(good).len() ==> hits.contains(#[trigger] hits.filter(good)[i])
                && good(hits.filter(good)[i]) && hits.filter(good)[i].0 < n,
        forall|i: int, j: int|
            0 <= i < j < hits.filter(good).len() ==> (#[trigger] hits.filter(good)[i]).0 != (
            #[trigger] hits.filter(good)[j]).0,
    decreases hits.len(),
{
    reveal(Seq::filter);
    if hits.len() > 0 {
        let rest = hits.drop_last();
        assert forall|i: int| 0 <= i < rest.len() implies (#[trigger] rest[i]).0 < n by {
            assert(rest[i] == hits[i]);
        }
        assert forall|i: int, j: int| 0 <= i < j < rest.len() implies (#[trigger] rest[i]).0 != (
        #[trigger] rest[j]).0 by {
            assert(rest[i] == hits[i] && rest[j] == hits[j]);
        }
        lemma_hits_filter(rest, good, n);
        let f = rest.filter(good);
        let g = hits.filter(good);
        assert forall|i: int| 0 <= i < g.len() implies hits.contains(#[trigger] g[i]) && good(g[i])
            && g[i].0 < n by {
            if i < f.len() {
                assert(g[i] == f[i]);
                let m = choose|m: int| 0 <= m < rest.len() && rest[m] == f[i];
                assert(hits[m] == g[i]);
            } else {
                assert(hits[hits.len() - 1] == g[i]);
            }
        }
        assert forall|i: int, j: int| 0 <= i < j < g.len() implies (#[trigger] g[i]).0 != (
        #[trigger] g[j]).0 by {
            assert(g[i] == f[i]);
            if j < f.len() {
                assert(g[j] == f[j]);
            } else {
                let m = choose|m: int| 0 <= m < rest.len() && rest[m] == f[i];
                assert(hits[m] == f[i]);
            }
        }
    }
}

/// Entering a document a second time gives the same index as entering it once.
pub proof fn law_reindex_is_idempotent(docs: Seq<DocView>, d: DocView)
    ensures
        without_ref(without_ref(docs, d.reff).push(d), d.reff).push(d) == without_ref(
            docs,
            d.reff,
        ).push(d),
{
    law_remove_undoes_index(docs, d);
}

/// Entering a document and taking it out leaves the other documents as they were.
pub proof fn law_remove_undoes_index(docs: Seq<DocView>, d: DocView)
    ensures
        without_ref(without_ref(docs, d.reff).push(d), d.reff) == without_ref(docs, d.reff),
{
    reveal(Seq::filter);
    let once = without_ref(docs, d.reff);
    assert(once.push(d).drop_last() =~= once);
    lemma_filter_keeps(docs, d.reff);
    lemma_without_absent(once, d.reff);
}

/// Whether the scorer answers alike whenever it is asked alike.
pub open spec fn answers_alike<S: ScoringStrategy>(scorer: &S) -> bool {
    forall|n: nat, frequencies: Seq<usize>, doc: DocView, now_ms: i64, s: Real, t: Real|
        #[trigger] scored_as(scorer, n, frequencies, doc, now_ms, s) && #[trigger] scored_as(
            scorer,
            n,
            frequencies,
            doc,
            now_ms,
            t,
        ) ==> s == t
}

/// Documents have one vocabulary.
proof fn lemma_vocabulary_unique(v: Seq<Seq<char>>, w: Seq<Seq<char>>)
    requires
        forall|a: int, b: int| 0 <= a < b < v.len() ==> lex_lt(#[trigger] v[a], #[trigger] v[b]),
        forall|a: int, b: int| 0 <= a < b < w.len() ==> lex_lt(#[trigger] w[a], #[trigger] w[b]),
        forall|t: Seq<char>| #[trigger] v.contains(t) <==> w.contains(t),
    ensures
        v == w,
    decreases v.len(),
{
    if v.len() == 0 {
        if w.len() > 0 {
            assert(w.contains(w[0]));
            assert(v.contains(w[0]));
        }
        assert(v =~= w);
    } else {
        let x = v[v.len() - 1];
        assert(v.contains(x));
        assert(w.contains(x));
        let y = w[w.len() - 1];
        assert(w.contains(y));
        assert(v.contains(y));
        let i = choose|i: int| 0 <= i < w.len() && w[i] == x;
        let j = choose|j: int| 0 <= j < v.len() && v[j] == y;
        if i < w.len() - 1 {
            assert(lex_lt(w[i], w[w.len() - 1]));
            if j < v.len() - 1 {
                assert(lex_lt(v[j], v[v.len() - 1]));
                lemma_lex_transitive(x, y, x);
            }
            lemma_lex_irreflexive(x);
        }
        assert(x == y);
        let front_v = v.drop_last();
        let front_w = w.drop_last();
        assert forall|t: Seq<char>| #[trigger] front_v.contains(t) <==> front_w.contains(t) by {
            lemma_lex_irreflexive(x);
            if front_v.contains(t) {
                let a = choose|a: int| 0 <= a < front_v.len() && front_v[a] == t;
                assert(lex_lt(v[a], v[v.len() - 1]));
                assert(v.contains(t));
                let b = choose|b: int| 0 <= b < w.len() && w[b] == t;
                assert(front_w[b] == t);
            }
            if front_w.contains(t) {
                let b = choose|b: int| 0 <= b < front_w.len() && front_w[b] == t;
                assert(lex_lt(w[b], w[w.len() - 1]));
                assert(w.contains(t));
                assert(v.contains(t));
                let a = choose|a: int| 0 <= a < v.len() && v[a] == t;
                assert(front_v[a] == t);
            }
        }
        lemma_vocabulary_unique(front_v, front_w);
        assert(v =~= front_v.push(x));
        assert(w =~= front_w.push(y));
    }
}

/// Indexes with the same documents answer alike, where the scorer does.
pub proof fn law_documents_settle_answers<S: ScoringStrategy>(
    scorer: &S,
    now_ms: i64,
    x: KeywordIndex,
    y: KeywordIndex,
    query: QueryView,
    r: Seq<(RefView, Real)>,
    s: Seq<(RefView, Real)>,
)
    requires
        x.wf(),
        y.wf(),
        x@ == y@,
        answers_alike(scorer),
        is_answer(scorer, now_ms, x@, x.vocabulary(), query, r),
        is_answer(scorer, now_ms, y@, y.vocabulary(), query, s),
    ensures
        x.vocabulary() == y.vocabulary(),
        r == s,
{
    x.law_wf();
    y.law_wf();
    lemma_vocabulary_unique(x.vocabulary(), y.vocabulary());
    let docs = x@;
    let cs = query_candidates(docs, query, x.vocabulary());
    let p = choose|p: Seq<Real>|
        all_scored(scorer, docs, cs, now_ms, p) && is_ranking(
            docs,
            #[trigger] scored(cs, p),
            query.top_k,
            r,
        );
    let q = choose|q: Seq<Real>|
        all_scored(scorer, docs, cs, now_ms, q) && is_ranking(
            docs,
            #[trigger] scored(cs, q),
            query.top_k,
            s,
        );
    assert forall|i: int| 0 <= i < cs.len() implies p[i] == q[i] by {
        let d = docs[cs[i].0 as int];
        assert(scored_as(scorer, docs.len(), cs[i].1, d, now_ms, p[i]));
        assert(scored_as(scorer, docs.len(), cs[i].1, d, now_ms, q[i]));
    }
    assert(p =~= q);
    law_fewer_are_the_best(docs, scored(cs, p), query.top_k, query.top_k, r, s);
    assert(r.len() <= query.top_k && s.len() <= query.top_k);
    assert(r =~= s);
}

/// Entering a new document and taking it out again leaves no trace: taking it out finds it, all
/// documents are there as before, every search answers as before where the scorer answers
/// alike, and taking it out a second time finds nothing and changes nothing.
pub proof fn law_removing_restores_answers<S: ScoringStrategy>(
    scorer: &S,
    now_ms: i64,
    before: KeywordIndex,
    with: KeywordIndex,
    after: KeywordIndex,
    d: DocView,
    query: QueryView,
    r: Seq<(RefView, Real)>,
    s: Seq<(RefView, Real)>,
)
    requires
        before.wf(),
        after.wf(),
        forall|i: int| 0 <= i < before@.len() ==> (#[trigger] before@[i]).reff != d.reff,
        with@ == without_ref(before@, d.reff).push(d),
        after@ == without_ref(with@, d.reff),
        answers_alike(scorer),
        is_answer(scorer, now_ms, before@, before.vocabulary(), query, r),
        is_answer(scorer, now_ms, after@, after.vocabulary(), query, s),
    ensures
        exists|i: int| 0 <= i < with@.len() && (#[trigger] with@[i]).reff == d.reff,
        after@ == before@,
        after.vocabulary() == before.vocabulary(),
        s == r,
        forall|i: int| 0 <= i < after@.len() ==> (#[trigger] after@[i]).reff != d.reff,
        without_ref(after@, d.reff) == after@,
{
    lemma_without_absent(before@, d.reff);
    law_remove_undoes_index(before@, d);
    assert(with@[with@.len() - 1].reff == d.reff);
    law_documents_settle_answers(scorer, now_ms, before, after, query, r, s);
}

proof fn lemma_filter_keeps(docs: Seq<DocView>, reff: RefView)
    ensures
        forall|i: int|
            0 <= i < without_ref(docs, reff).len() ==> (#[trigger] without_ref(docs, reff)[i]).reff
                != reff,
    decreases docs.len(),
{
    reveal(Seq::filter);
    if docs.len() > 0 {
        lemma_filter_keeps(docs.drop_last(), reff);
        let f = without_ref(docs.drop_last(), reff);
        let g = without_ref(docs, reff);
        assert forall|i: int| 0 <= i < g.len() implies (#[trigger] g[i]).reff != reff by {
            if i < f.len() {
                assert(g[i] == f[i]);
            }
        }
    }
}

/// A document that has one of the terms has a frequency to show for it.
proof fn lemma_term_found(docs: Seq<DocView>, terms: Seq<Seq<char>>, i: int, k: int)
    requires
        0 <= k < terms.len(),
        docs[i].keywords.contains(terms[k]),
    ensures
        term_frequencies(docs, terms, i).len() > 0,
    decreases terms.len(),
{
    if k < terms.len() - 1 {
        assert(terms.drop_last()[k] == terms[k]);
        lemma_term_found(docs, terms.drop_last(), i, k);
    }
}

/// What the candidates are: exactly the visible documents with a matching term, each once.
proof fn lemma_candidates(
    docs: Seq<DocView>,
    terms: Seq<Seq<char>>,
    persona: Option<Seq<char>>,
    n: int,
)
    requires
        0 <= n <= docs.len() <= usize::MAX,
    ensures
        forall|c: int|
            0 <= c < candidates_among(docs, terms, persona, n).len() ==> {
                let x = #[trigger] candidates_among(docs, terms, persona, n)[c];
                &&& x.0 < n
                &&& visible_to(persona, docs[x.0 as int].reff)
                &&& x.1 == term_frequencies(docs, terms, x.0 as int)
            },
        forall|a: int, b: int|
            0 <= a < b < candidates_among(docs, terms, persona, n).len() ==> (
            #[trigger] candidates_among(docs, terms, persona, n)[a]).0 < (
            #[trigger] candidates_among(docs, terms, persona, n)[b]).0,
        forall|i: int|
            0 <= i < n && (#[trigger] term_frequencies(docs, terms, i)).len() > 0 && visible_to(
                persona,
                docs[i].reff,
            ) ==> candidates_among(docs, terms, persona, n).contains(
                (i as usize, term_frequencies(docs, terms, i)),
            ),
    decreases n,
{
    if n > 0 {
        lemma_candidates(docs, terms, persona, n - 1);
        let f = candidates_among(docs, terms, persona, n - 1);
        let g = candidates_among(docs, terms, persona, n);
        assert forall|c: int| 0 <= c < g.len() implies {
            let x = #[trigger] g[c];
            &&& x.0 < n
            &&& visible_to(persona, docs[x.0 as int].reff)
            &&& x.1 == term_frequencies(docs, terms, x.0 as int)
        } by {
            if c < f.len() {
                assert(g[c] == f[c]);
            }
        }
        assert forall|a: int, b: int| 0 <= a < b < g.len() implies (#[trigger] g[a]).0 < (
        #[trigger] g[b]).0 by {
            assert(g[a] == f[a]);
            if b < f.len() {
                assert(g[b] == f[b]);
            }
        }
        assert forall|i: int|
            0 <= i < n && (#[trigger] term_frequencies(docs, terms, i)).len() > 0 && visible_to(
                persona,
                docs[i].reff,
            ) implies g.contains((i as usize, term_frequencies(docs, terms, i))) by {
            let x = (i as usize, term_frequencies(docs, terms, i));
            if i < n - 1 {
                assert(f.contains(x));
                let c = choose|c: int| 0 <= c < f.len() && f[c] == x;
                assert(g[c] == x);
            } else {
                assert(g[f.len() as int] == x);
            }
        }
    }
}

/// A document is found by an exact search for any of its keywords, by everyone who may see
/// it.
pub proof fn law_indexed_is_found(
    docs: Seq<DocView>,
    query: QueryView,
    v: Seq<Seq<char>>,
    i: int,
    t: Seq<char>,
)
    requires
        docs.len() <= usize::MAX,
        0 <= i < docs.len(),
        docs[i].keywords.contains(t),
        query.keywords.contains(t),
        query.strategy == MatchStrategy::Exact,
        query.top_k > 0,
        visible_to(query.persona_uid, docs[i].reff),
    ensures
        exists|c: int|
            0 <= c < query_candidates(docs, query, v).len() && (#[trigger] query_candidates(
                docs,
                query,
                v,
            )[c]).0 == i,
{
    let k = choose|k: int| 0 <= k < query.keywords.len() && query.keywords[k] == t;
    lemma_term_found(docs, query.keywords, i, k);
    lemma_candidates(docs, query.keywords, query.persona_uid, docs.len() as int);
    let cs = query_candidates(docs, query, v);
    let x = (i as usize, term_frequencies(docs, query.keywords, i));
    assert(cs.contains(x));
    let c = choose|c: int| 0 <= c < cs.len() && cs[c] == x;
    assert(cs[c].0 == i);
}

/// A search finds each document at most once, only documents that the persona may see, and
/// only documents with a matching keyword.
pub proof fn law_candidates_are_visible(docs: Seq<DocView>, query: QueryView, v: Seq<Seq<char>>)
    requires
        docs.len() <= usize::MAX,
    ensures
        forall|c: int|
            0 <= c < query_candidates(docs, query, v).len() ==> {
                let x = #[trigger] query_candidates(docs, query, v)[c];
                &&& x.0 < docs.len()
                &&& visible_to(query.persona_uid, docs[x.0 as int].reff)
            },
        forall|a: int, b: int|
            0 <= a < b < query_candidates(docs, query, v).len() ==> (#[trigger] query_candidates(
                docs,
                query,
                v,
            )[a]).0 < (#[trigger] query_candidates(docs, query, v)[b]).0,
{
    lemma_candidates(docs, query_terms(query, v), query.persona_uid, docs.len() as int);
}

/// A search by parts finds every document that the exact search finds.
pub proof fn law_substring_covers_exact(
    docs: Seq<DocView>,
    query: QueryView,
    v: Seq<Seq<char>>,
    i: int,
    t: Seq<char>,
)
    requires
        docs.len() <= usize::MAX,
        is_vocabulary(v, docs),
        0 <= i < docs.len(),
        docs[i].keywords.contains(t),
        query.keywords.contains(t),
        query.strategy == MatchStrategy::Substring,
        query.top_k > 0,
        visible_to(query.persona_uid, docs[i].reff),
    ensures
        exists|c: int|
            0 <= c < query_candidates(docs, query, v).len() && (#[trigger] query_candidates(
                docs,
                query,
                v,
            )[c]).0 == i,
{
    let hit = |x: Seq<char>| part_of_term(query.keywords, x);
    let terms = v.filter(hit);
    let q = choose|q: int| 0 <= q < query.keywords.len() && query.keywords[q] == t;
    assert(occurs_in(t, query.keywords[q])) by {
        assert(t.subrange(0, t.len() as int) =~= t);
        assert(crate::text::occurs_at(t, t, 0));
    }
    assert(v.contains(t));
    let m = choose|m: int| 0 <= m < v.len() && v[m] == t;
    v.lemma_filter_contains(hit, m);
    assert(terms.contains(v[m]));
    let k = choose|k: int| 0 <= k < terms.len() && terms[k] == t;
    lemma_term_found(docs, terms, i, k);
    lemma_candidates(docs, terms, query.persona_uid, docs.len() as int);
    let cs = query_candidates(docs, query, v);
    let x = (i as usize, term_frequencies(docs, terms, i));
    assert(cs.contains(x));
    let c = choose|c: int| 0 <= c < cs.len() && cs[c] == x;
    assert(cs[c].0 == i);
}

impl Clone for KeywordIndex {
    fn clone(&self) -> (r: Self)
        ensures
            r@ == self@,
            r.vocabulary() == self.vocabulary(),
            self.wf() ==> r.wf(),
    {
        let mut docs: Vec<DocEntry> = Vec::new();
        let mut i: usize = 0;
        assert(doc_views(docs@) =~= self@.take(0));
        while i < self.docs.len()
            invariant
                i <= self.docs@.len(),
                doc_views(docs@) == self@.take(i as int),
            decreases self.docs@.len() - i,
        {
            let ghost before = doc_views(docs@);
            docs.push(self.docs[i].copy());
            assert(doc_views(docs@) =~= before.push(self@[i as int]));
            i += 1;
            assert(self@.take(i as int) =~= self@.take(i - 1).push(self@[i - 1]));
        }
        assert(self@.take(i as int) =~= self@);
        let mut inverted: Vec<Posting> = Vec::new();
        let mut k: usize = 0;
        while k < self.inverted.len()
            invariant
                k <= self.inverted@.len(),
                inverted@.len() == k,
                forall|m: int|
                    0 <= m < k ==> (#[trigger] inverted@[m]).token@ == self.inverted@[m].token@
                        && inverted@[m].docs@ == self.inverted@[m].docs@,
            decreases self.inverted@.len() - k,
        {
            inverted.push(self.inverted[k].copy());
            k += 1;
        }
        let r = KeywordIndex { docs, inverted };
        assert(r.vocabulary() =~= self.vocabulary());
        proof {
            if self.wf() {
                assert forall|t: Seq<char>| has_key(self.inverted@, t) implies has_key(
                    r.inverted@,
                    t,
                ) by {
                    let m = choose|m: int|
                        0 <= m < self.inverted@.len() && (#[trigger] self.inverted@[m]).token@ == t;
                    assert(r.inverted@[m].token@ == t);
                }
            }
        }
        r
    }
}

impl Default for KeywordIndex {
    fn default() -> (r: Self)
        ensures
            r.wf(),
            r@ == Seq::<DocView>::empty(),
    {
        KeywordIndex::new()
    }
}

/// A search finds a document where the persona may see it and a keyword of the query matches:
/// in an exact search the keyword is one of the document's, in a search by parts it stands
/// somewhere in one of them. It finds no other document.
pub proof fn law_found_where_matching(docs: Seq<DocView>, query: QueryView, v: Seq<Seq<char>>, i: int)
    requires
        docs.len() <= usize::MAX,
        is_vocabulary(v, docs),
        0 <= i < docs.len(),
        query.top_k > 0,
    ensures
        (exists|c: int|
            0 <= c < query_candidates(docs, query, v).len() && (#[trigger] query_candidates(
                docs,
                query,
                v,
            )[c]).0 == i) <==> {
            &&& query.persona_uid is Some && query.persona_uid->0.len() > 0 ==> (
            match docs[i].reff {
                RefView::L1 { persona_uid, .. } => persona_uid == query.persona_uid->0,
                RefView::L2 { persona_uid, .. } => persona_uid == query.persona_uid->0,
                RefView::Pool { .. } => false,
            })
            &&& exists|k: int, q: int|
                #![trigger docs[i].keywords[k], query.keywords[q]]
                0 <= k < docs[i].keywords.len() && 0 <= q < query.keywords.len() && (
                match query.strategy {
                    MatchStrategy::Exact => docs[i].keywords[k] == query.keywords[q],
                    MatchStrategy::Substring => exists|p: int|
                        0 <= p && p + query.keywords[q].len() <= docs[i].keywords[k].len()
                            && #[trigger] docs[i].keywords[k].subrange(
                            p,
                            p + query.keywords[q].len(),
                        ) == query.keywords[q],
                })
        },
{
    let cs = query_candidates(docs, query, v);
    let terms = query_terms(query, v);
    let words = docs[i].keywords;
    lemma_candidates(docs, terms, query.persona_uid, docs.len() as int);
    lemma_frequencies(docs, terms, i);
    let part = |t: Seq<char>| part_of_term(query.keywords, t);
    let has = |t: Seq<char>| words.contains(t);
    if exists|c: int| 0 <= c < cs.len() && (#[trigger] cs[c]).0 == i {
        let c = choose|c: int| 0 <= c < cs.len() && (#[trigger] cs[c]).0 == i;
        lemma_candidates_have_terms(docs, terms, query.persona_uid, docs.len() as int);
        assert(cs[c].1.len() > 0);
        assert(terms.filter(has).len() > 0);
        terms.lemma_filter_contains_rev(has, terms.filter(has)[0]);
        let t = terms.filter(has)[0];
        terms.lemma_filter_pred(has, 0);
        let k = choose|k: int| 0 <= k < words.len() && words[k] == t;
        match query.strategy {
            MatchStrategy::Exact => {
                let q = choose|q: int| 0 <= q < terms.len() && terms[q] == t;
                assert(docs[i].keywords[k] == query.keywords[q]);
            },
            MatchStrategy::Substring => {
                let m = choose|m: int| 0 <= m < terms.len() && terms[m] == t;
                v.lemma_filter_pred(part, m);
                let q = choose|q: int|
                    0 <= q < query.keywords.len() && occurs_in(t, #[trigger] query.keywords[q]);
                let p = choose|p: int| crate::text::occurs_at(t, query.keywords[q], p);
                assert(docs[i].keywords[k].subrange(p, p + query.keywords[q].len())
                    == query.keywords[q]);
            },
        }
    }
    if visible_to(query.persona_uid, docs[i].reff) && exists|k: int, q: int|
        #![trigger docs[i].keywords[k], query.keywords[q]]
        0 <= k < docs[i].keywords.len() && 0 <= q < query.keywords.len() && (match query.strategy {
            MatchStrategy::Exact => docs[i].keywords[k] == query.keywords[q],
            MatchStrategy::Substring => exists|p: int|
                0 <= p && p + query.keywords[q].len() <= docs[i].keywords[k].len()
                    && #[trigger] docs[i].keywords[k].subrange(p, p + query.keywords[q].len())
                    == query.keywords[q],
        }) {
        let (k, q) = choose|k: int, q: int|
            #![trigger docs[i].keywords[k], query.keywords[q]]
            0 <= k < docs[i].keywords.len() && 0 <= q < query.keywords.len() && (
            match query.strategy {
                MatchStrategy::Exact => docs[i].keywords[k] == query.keywords[q],
                MatchStrategy::Substring => exists|p: int|
                    0 <= p && p + query.keywords[q].len() <= docs[i].keywords[k].len()
                        && #[trigger] docs[i].keywords[k].subrange(
                        p,
                        p + query.keywords[q].len(),
                    ) == query.keywords[q],
            });
        let t = words[k];
        assert(words.contains(t));
        match query.strategy {
            MatchStrategy::Exact => {
                assert(terms[q] == t);
                lemma_term_found(docs, terms, i, q);
            },
            MatchStrategy::Substring => {
                let p = choose|p: int|
                    0 <= p && p + query.keywords[q].len() <= docs[i].keywords[k].len()
                        && #[trigger] docs[i].keywords[k].subrange(
                        p,
                        p + query.keywords[q].len(),
                    ) == query.keywords[q];
                assert(crate::text::occurs_at(t, query.keywords[q], p));
                assert(part(t));
                assert(v.contains(t));
                let m = choose|m: int| 0 <= m < v.len() && v[m] == t;
                v.lemma_filter_contains(part, m);
                let n = choose|n: int| 0 <= n < terms.len() && terms[n] == t;
                lemma_term_found(docs, terms, i, n);
            },
        }
        let x = (i as usize, term_frequencies(docs, terms, i));
        assert(cs.contains(x));
        let c = choose|c: int| 0 <= c < cs.len() && cs[c] == x;
        assert(cs[c].0 == i);
    }
}

/// Candidates have a matching term.
proof fn lemma_candidates_have_terms(
    docs: Seq<DocView>,
    terms: Seq<Seq<char>>,
    persona: Option<Seq<char>>,
    n: int,
)
    ensures
        forall|c: int|
            0 <= c < candidates_among(docs, terms, persona, n).len() ==> (
            #[trigger] candidates_among(docs, terms, persona, n)[c]).1.len() > 0,
    decreases n,
{
    if n > 0 {
        lemma_candidates_have_terms(docs, terms, persona, n - 1);
        let f = candidates_among(docs, terms, persona, n - 1);
        let g = candidates_among(docs, terms, persona, n);
        assert forall|c: int| 0 <= c < g.len() implies (#[trigger] g[c]).1.len() > 0 by {
            if c < f.len() {
                assert(g[c] == f[c]);
            }
        }
    }
}

proof fn lemma_frequencies(docs: Seq<DocView>, terms: Seq<Seq<char>>, i: int)
    ensures
        term_frequencies(docs, terms, i) == terms.filter(
            |t: Seq<char>| docs[i].keywords.contains(t),
        ).map_values(|t: Seq<char>| doc_frequency(docs, t) as usize),
    decreases terms.len(),
{
    reveal(Seq::filter);
    let has = |t: Seq<char>| docs[i].keywords.contains(t);
    let f = |t: Seq<char>| doc_frequency(docs, t) as usize;
    if terms.len() > 0 {
        lemma_frequencies(docs, terms.drop_last(), i);
        let front = terms.drop_last().filter(has);
        if has(terms.last()) {
            assert(front.push(terms.last()).map_values(f) =~= front.map_values(f).push(
                f(terms.last()),
            ));
        }
    } else {
        assert(terms.filter(has).map_values(f) =~= Seq::<usize>::empty());
    }
}

/// With a document that is found come the frequencies of the matching terms, in their order: for
/// each of them the number of documents that have it, whoever may see those.
pub proof fn law_frequencies_count_documents(
    docs: Seq<DocView>,
    query: QueryView,
    v: Seq<Seq<char>>,
    c: int,
)
    requires
        docs.len() <= usize::MAX,
        0 <= c < query_candidates(docs, query, v).len(),
    ensures
        ({
            let x = query_candidates(docs, query, v)[c];
            let terms = match query.strategy {
                MatchStrategy::Exact => query.keywords,
                MatchStrategy::Substring => v.filter(
                    |t: Seq<char>|
                        exists|q: int|
                            0 <= q < query.keywords.len() && occurs_in(
                                t,
                                #[trigger] query.keywords[q],
                            ),
                ),
            };
            x.1 == terms.filter(
                |t: Seq<char>| docs[x.0 as int].keywords.contains(t),
            ).map_values(
                |t: Seq<char>| docs.filter(|d: DocView| d.keywords.contains(t)).len() as usize,
            )
        }),
{
    let x = query_candidates(docs, query, v)[c];
    let terms = query_terms(query, v);
    lemma_candidates(docs, terms, query.persona_uid, docs.len() as int);
    lemma_frequencies(docs, terms, x.0 as int);
    assert forall|t: Seq<char>| #[trigger] doc_frequency(docs, t) == docs.filter(
        |d: DocView| d.keywords.contains(t),
    ).len() by {
        law_postings_ascend(docs, t);
    }
    let f = |t: Seq<char>| doc_frequency(docs, t) as usize;
    let g = |t: Seq<char>| docs.filter(|d: DocView| d.keywords.contains(t)).len() as usize;
    assert(f =~= g);
    let part = |t: Seq<char>| part_of_term(query.keywords, t);
    let inline = |t: Seq<char>|
        exists|q: int| 0 <= q < query.keywords.len() && occurs_in(t, #[trigger] query.keywords[q]);
    assert(part =~= inline);
}

/// The places of a keyword ascend; they are those of the documents that have it, and of no
/// others.
pub proof fn law_postings_ascend(docs: Seq<DocView>, t: Seq<char>)
    requires
        docs.len() <= usize::MAX,
    ensures
        forall|a: int, b: int|
            0 <= a < b < posting_of(docs, t).len() ==> #[trigger] posting_of(docs, t)[a]
                < #[trigger] posting_of(docs, t)[b],
        forall|a: int|
            0 <= a < posting_of(docs, t).len() ==> (#[trigger] posting_of(docs, t)[a]) < docs.len()
                && docs[posting_of(docs, t)[a] as int].keywords.contains(t),
        posting_of(docs, t).len() == docs.filter(|d: DocView| d.keywords.contains(t)).len(),
        doc_frequency(docs, t) == docs.filter(|d: DocView| d.keywords.contains(t)).len(),
    decreases docs.len(),
{
    reveal(Seq::filter);
    if docs.len() > 0 {
        law_postings_ascend(docs.drop_last(), t);
        let f = posting_of(docs.drop_last(), t);
        let g = posting_of(docs, t);
        assert forall|a: int| 0 <= a < g.len() implies (#[trigger] g[a]) < docs.len()
            && docs[g[a] as int].keywords.contains(t) by {
            if a < f.len() {
                assert(g[a] == f[a]);
                assert(docs.drop_last()[f[a] as int] == docs[f[a] as int]);
            }
        }
    }
}

/// A ranking holds the hits with scores above zero, the best of them where not all are asked
/// for, and no score in it comes behind a lower one.
pub proof fn law_best_hits_come_first(
    docs: Seq<DocView>,
    hits: Seq<(usize, Real)>,
    top_k: usize,
    r: Seq<(RefView, Real)>,
)
    requires
        is_ranking(docs, hits, top_k, r),
    ensures
        r.len() == ({
            let n = hits.filter(|h: (usize, Real)| 0 < h.1.bits <= 0x7ff0_0000_0000_0000).len();
            if top_k < n {
                top_k as nat
            } else {
                n
            }
        }),
        forall|a: int, b: int|
            0 <= a < b < r.len() ==> (#[trigger] r[a]).1.bits >= (#[trigger] r[b]).1.bits,
        forall|a: int|
            0 <= a < r.len() ==> 0 < (#[trigger] r[a]).1.bits <= 0x7ff0_0000_0000_0000 && exists|i: int|

                0 <= i < hits.len() && docs[(#[trigger] hits[i]).0 as int].reff == r[a].0
                    && hits[i].1 == r[a].1,
        forall|i: int|
            0 <= i < hits.len() && 0 < (#[trigger] hits[i]).1.bits <= 0x7ff0_0000_0000_0000 ==> {
                ||| r.contains((docs[hits[i].0 as int].reff, hits[i].1))
                ||| r.len() == top_k && forall|a: int|
                    0 <= a < r.len() ==> (#[trigger] r[a]).1.bits >= hits[i].1.bits
            },
{
    let good = |h: (usize, Real)| (Real { bits: 0 }).lt(h.1);
    let high = |h: (usize, Real)| 0 < h.1.bits <= 0x7ff0_0000_0000_0000;
    assert(good =~= high);
    let kept = positive_hits(hits);
    let keys = hit_keys(docs, kept);
    let p = choose|p: Seq<usize>| #[trigger]
        ordered_by(p, keys) && r == picked_hits(docs, kept, p, top_k);
    crate::order::law_order_lists_all(p, keys);
    assert forall|m: int| 0 <= m < kept.len() implies high(#[trigger] kept[m]) by {
        hits.lemma_filter_pred(good, m);
    }
    assert forall|a: int, b: int| 0 <= a < b < p.len() implies kept[#[trigger] p[a] as int].1.bits
        >= kept[#[trigger] p[b] as int].1.bits by {
        let x = kept[p[a] as int];
        let y = kept[p[b] as int];
        assert(high(x) && high(y));
        assert(keys[p[a] as int] == hit_key(docs, x) && keys[p[b] as int] == hit_key(docs, y));
        assert(hit_key(docs, x)[0] == -x.1.bits && hit_key(docs, y)[0] == -y.1.bits);
        assert(!crate::order::key_lt(keys[p[b] as int], keys[p[a] as int]));
    }
    assert forall|a: int| 0 <= a < r.len() implies 0 < (#[trigger] r[a]).1.bits
        <= 0x7ff0_0000_0000_0000 && exists|i: int|
        0 <= i < hits.len() && docs[(#[trigger] hits[i]).0 as int].reff == r[a].0 && hits[i].1
            == r[a].1 by {
        let m = p[a] as int;
        hits.lemma_filter_contains_rev(good, kept[m]);
        let i = choose|i: int| 0 <= i < hits.len() && hits[i] == kept[m];
        assert(docs[hits[i].0 as int].reff == r[a].0);
    }
    assert forall|i: int|
        0 <= i < hits.len() && 0 < (#[trigger] hits[i]).1.bits <= 0x7ff0_0000_0000_0000 implies {
        ||| r.contains((docs[hits[i].0 as int].reff, hits[i].1))
        ||| r.len() == top_k && forall|a: int|
            0 <= a < r.len() ==> (#[trigger] r[a]).1.bits >= hits[i].1.bits
    } by {
        hits.lemma_filter_contains(good, i);
        assert(kept.contains(hits[i]));
        let m = choose|m: int| 0 <= m < kept.len() && kept[m] == hits[i];
        crate::order::lemma_lists_all(p, keys.len() as int, m);
        let a = choose|a: int| 0 <= a < p.len() && #[trigger] p[a] == m;
        if a < r.len() {
            assert(r[a] == (docs[hits[i].0 as int].reff, hits[i].1));
        } else {
            assert forall|b: int| 0 <= b < r.len() implies (#[trigger] r[b]).1.bits
                >= hits[i].1.bits by {
                assert(p[b] != p[a]);
            }
        }
    }
}

/// Among hits with the same score the newer document comes first, and among those of the same
/// time the one whose label comes first in the order of texts.
pub proof fn law_ties_go_to_newer(
    docs: Seq<DocView>,
    hits: Seq<(usize, Real)>,
    top_k: usize,
    r: Seq<(RefView, Real)>,
    a: int,
    b: int,
    i: int,
    j: int,
)
    requires
        is_ranking(docs, hits, top_k, r),
        refs_unique(docs),
        forall|k: int| 0 <= k < hits.len() ==> (#[trigger] hits[k]).0 < docs.len(),
        0 <= a < b < r.len(),
        r[a].1 == r[b].1,
        0 <= i < docs.len(),
        0 <= j < docs.len(),
        docs[i].reff == r[a].0,
        docs[j].reff == r[b].0,
    ensures
        docs[i].created_at >= docs[j].created_at,
        docs[i].created_at == docs[j].created_at && docs[i].reff.label() is Some
            && docs[j].reff.label() is Some ==> !lex_lt(
            docs[j].reff.label()->0,
            docs[i].reff.label()->0,
        ),
{
    let good = |h: (usize, Real)| (Real { bits: 0 }).lt(h.1);
    let kept = positive_hits(hits);
    let keys = hit_keys(docs, kept);
    let p = choose|p: Seq<usize>| #[trigger]
        ordered_by(p, keys) && r == picked_hits(docs, kept, p, top_k);
    crate::order::law_order_lists_all(p, keys);
    let x = kept[p[a] as int];
    let y = kept[p[b] as int];
    hits.lemma_filter_contains_rev(good, x);
    hits.lemma_filter_contains_rev(good, y);
    assert(x.0 < docs.len() && y.0 < docs.len());
    assert(x.0 == i && y.0 == j);
    let s = hit_key(docs, x);
    let t = hit_key(docs, y);
    assert(!crate::order::key_lt(t, s));
    assert(s[0] == t[0]);
    assert(s.drop_first()[0] == -docs[i].created_at);
    assert(t.drop_first()[0] == -docs[j].created_at);
    assert(crate::order::key_lt(t, s) == crate::order::key_lt(t.drop_first(), s.drop_first()));
    if docs[i].created_at == docs[j].created_at && docs[i].reff.label() is Some
        && docs[j].reff.label() is Some {
        let l = docs[i].reff.label()->0;
        let m = docs[j].reff.label()->0;
        assert(s.drop_first().drop_first() =~= code_points(l));
        assert(t.drop_first().drop_first() =~= code_points(m));
        lemma_code_points_order(m, l);
    }
}

/// Characters are ordered as their code points are.
proof fn lemma_code_of_char(x: char, y: char)
    ensures
        (x as u32) as i128 == (y as u32) as i128 <==> x == y,
        ((x as u32) as i128) < ((y as u32) as i128) <==> x < y,
{
}

/// Texts are ordered as their code points are.
pub proof fn lemma_code_points_order(a: Seq<char>, b: Seq<char>)
    ensures
        crate::order::key_lt(code_points(a), code_points(b)) == lex_lt(a, b),
    decreases a.len(),
{
    assert(code_points(a).len() == a.len() && code_points(b).len() == b.len());
    if a.len() > 0 && b.len() > 0 {
        lemma_code_of_char(a[0], b[0]);
        lemma_code_points_order(a.drop_first(), b.drop_first());
        assert(code_points(a).drop_first() =~= code_points(a.drop_first()));
        assert(code_points(b).drop_first() =~= code_points(b.drop_first()));
    }
}

/// A document is labelled by its kind and its identifier; dictionary entries have no label and
/// belong to no persona.
pub proof fn law_labels(id: u128, n: i64, persona_uid: Seq<char>)
    ensures
        (RefView::L1 { id, persona_uid }).label() == Some("L1:"@ + hyphenated(id)),
        (RefView::L2 { id: n, persona_uid }).label() == Some("L2:"@ + signed_decimal(n as int)),
        (RefView::Pool { id: n }).label() is None,
        (RefView::L1 { id, persona_uid }).persona() == Some(persona_uid),
        (RefView::L2 { id: n, persona_uid }).persona() == Some(persona_uid),
        (RefView::Pool { id: n }).persona() is None,
{
}

/// Taking documents out leaves exactly those that are not named, as they stood.
pub proof fn law_removal_leaves_the_others(
    docs: Seq<DocView>,
    reff: RefView,
    l1_ids: Seq<u128>,
    l2_ids: Seq<i64>,
)
    ensures
        without_ref(docs, reff) == docs.filter(|d: DocView| d.reff != reff),
        without_ids(docs, l1_ids, l2_ids) == docs.filter(
            |d: DocView|
                match d.reff {
                    RefView::L1 { id, .. } => !l1_ids.contains(id),
                    RefView::L2 { id, .. } => !l2_ids.contains(id),
                    RefView::Pool { .. } => true,
                },
        ),
{
    let f = |d: DocView| !named_by(d, l1_ids, l2_ids);
    let g = |d: DocView|
        match d.reff {
            RefView::L1 { id, .. } => !l1_ids.contains(id),
            RefView::L2 { id, .. } => !l2_ids.contains(id),
            RefView::Pool { .. } => true,
        };
    assert(f =~= g);
}

/// What a reference and a query say is what stands in their fields.
pub proof fn law_queries_are_seen(id: u128, n: i64, persona_uid: String, q: KeywordQuery)
    ensures
        (KeywordRef::L1 { id, persona_uid })@ == (RefView::L1 { id, persona_uid: persona_uid@ }),
        (KeywordRef::L2 { id: n, persona_uid })@ == (RefView::L2 {
            id: n,
            persona_uid: persona_uid@,
        }),
        (KeywordRef::Pool { id: n })@ == (RefView::Pool { id: n }),
        q@.keywords == q.keywords@,
        q@.persona_uid == opt_text(q.persona_uid),
        q@.top_k == q.top_k,
        q@.strategy == q.strategy,
{
}

/// The keywords of a field are what stands between its commas, in either script: every piece
/// with a letter or a digit in it gives one, without the spaces round it and in lower case, and
/// of equal ones the first counts. A missing field has none.
pub proof fn law_keywords_of_field(s: Seq<char>)
    ensures
        parsed_keywords(Some(s)) == distinct(
            split(s, |c: char| c == ',' || c == '，').filter(
                |p: Seq<char>|
                    exists|i: int| 0 <= i < trim(p).len() && alphanumeric(#[trigger] trim(p)[i]),
            ).map_values(|p: Seq<char>| lower(trim(p))),
        ),
        parsed_keywords(None).len() == 0,
{
    let n = CommaSeparatedNormalizer;
    law_pieces_between_commas(n, s);
    law_pieces_between_commas(n, Seq::empty());
    law_distinct_keeps_first(
        split(s, |c: char| c == ',' || c == '，').filter(
            |p: Seq<char>|
                exists|i: int| 0 <= i < trim(p).len() && alphanumeric(#[trigger] trim(p)[i]),
        ).map_values(|p: Seq<char>| lower(trim(p))),
    );
    lemma_distinct_stays(n.tokens(s));
    let pieces = split(Seq::empty(), |c: char| c == ',' || c == '，');
    let keep = |p: Seq<char>|
        exists|i: int| 0 <= i < trim(p).len() && alphanumeric(#[trigger] trim(p)[i]);
    reveal_with_fuel(Seq::filter, 2);
    assert(pieces =~= seq![Seq::<char>::empty()]);
    assert(pieces.drop_last() =~= Seq::<Seq<char>>::empty());
    assert(trim(Seq::<char>::empty()).len() == 0);
    assert(!keep(pieces.last()));
    assert(pieces.filter(keep) =~= Seq::<Seq<char>>::empty());
    assert(pieces.filter(keep).map_values(|p: Seq<char>| lower(trim(p))) =~= Seq::<
        Seq<char>,
    >::empty());
    assert(n.tokens(Seq::empty()) =~= Seq::<Seq<char>>::empty());
}

proof fn lemma_distinct_stays(s: Seq<Seq<char>>)
    requires
        s.no_duplicates(),
    ensures
        distinct(s) == s,
    decreases s.len(),
{
    if s.len() > 0 {
        lemma_distinct_stays(s.drop_last());
        assert(!s.drop_last().contains(s.last()));
        assert(s.drop_last().push(s.last()) =~= s);
    } else {
        assert(distinct(s) =~= s);
    }
}

/// What lists of results and of candidates say is what each of them says, in order.
pub proof fn law_results_are_seen(r: Seq<(KeywordRef, Real)>, c: Seq<Candidate>)
    ensures
        result_views(r).len() == r.len() && candidate_views(c).len() == c.len(),
        forall|i: int| 0 <= i < r.len() ==> #[trigger] result_views(r)[i] == (r[i].0@, r[i].1),
        forall|i: int|
            0 <= i < c.len() ==> #[trigger] candidate_views(c)[i] == (c[i].doc, c[i].frequencies@),
{
}

/// A document is scored by the number of all documents, by the frequencies of the terms that it
/// matches, and by its own salience and time.
pub proof fn law_scored_by_its_document<S: ScoringStrategy>(
    scorer: &S,
    n: nat,
    frequencies: Seq<usize>,
    doc: DocView,
    now_ms: i64,
    s: Real,
)
    requires
        scored_as(scorer, n, frequencies, doc, now_ms, s),
    ensures
        exists|count: usize, list: Vec<usize>|
            count == n && list@ == frequencies && #[trigger] call_ensures(
                S::score,
                (scorer, count, &list, doc.salience, doc.created_at, now_ms),
                s,
            ),
{
}

/// An answer is a ranking of the candidates by their scores, and every candidate is scored.
pub proof fn law_every_candidate_is_scored<S: ScoringStrategy>(
    scorer: &S,
    now_ms: i64,
    docs: Seq<DocView>,
    v: Seq<Seq<char>>,
    query: QueryView,
    r: Seq<(RefView, Real)>,
) -> (scores: Seq<Real>)
    requires
        is_answer(scorer, now_ms, docs, v, query, r),
    ensures
        scores.len() == query_candidates(docs, query, v).len(),
        forall|i: int|
            0 <= i < scores.len() ==> scored_as(
                scorer,
                docs.len(),
                query_candidates(docs, query, v)[i].1,
                docs[query_candidates(docs, query, v)[i].0 as int],
                now_ms,
                #[trigger] scores[i],
            ),
        is_ranking(
            docs,
            Seq::new(
                scores.len(),
                |i: int| (query_candidates(docs, query, v)[i].0, scores[i]),
            ),
            query.top_k,
            r,
        ),
{
    let cs = query_candidates(docs, query, v);
    let scores = choose|scores: Seq<Real>|
        all_scored(scorer, docs, cs, now_ms, scores) && is_ranking(
            docs,
            #[trigger] scored(cs, scores),
            query.top_k,
            r,
        );
    assert(scored(cs, scores) =~= Seq::new(scores.len(), |i: int| (cs[i].0, scores[i])));
    scores
}

} // verus!
