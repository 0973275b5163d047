//! Other words for keywords, and suggestions which keywords to merge.

use vstd::prelude::*;

use crate::keyword::normalizer::{cjk, is_cjk};
use crate::keyword::token::{token_text, KeywordToken};
use crate::order::{key_seqs, ordered_by, stable_order};
use crate::text::{append_chars, blank, chars_of, copy_text, decimal, holds_part, lower, occurs_in,
    push_number, push_text, same_chars, same_text, string_of, trim};
use crate::text_map::{lemma_map_of, map_of, TextMap};

verus! {

pub open spec fn min2(a: nat, b: nat) -> nat {
    if a < b {
        a
    } else {
        b
    }
}

/// The edit distance of two texts: the least number of characters that have to be
/// inserted, deleted or replaced to turn one into the other.
pub open spec fn edit_distance(a: Seq<char>, b: Seq<char>) -> nat
    decreases a.len() + b.len(),
{
    if a.len() == 0 {
        b.len()
    } else if b.len() == 0 {
        a.len()
    } else {
        let replaced = edit_distance(a.drop_last(), b.drop_last()) + if a.last() == b.last() {
            0nat
        } else {
            1nat
        };
        min2(
            min2(edit_distance(a.drop_last(), b) + 1, edit_distance(a, b.drop_last()) + 1),
            replaced,
        )
    }
}

/// The edit distance, or the longer length where a text has more than 20 characters.
pub open spec fn bounded_distance(a: Seq<char>, b: Seq<char>) -> nat {
    if a.len() > 20 || b.len() > 20 {
        if a.len() > b.len() {
            a.len()
        } else {
            b.len()
        }
    } else {
        edit_distance(a, b)
    }
}

/// The edit distance does not depend on the order of the texts.
pub proof fn law_distance_symmetric(a: Seq<char>, b: Seq<char>)
    ensures
        edit_distance(a, b) == edit_distance(b, a),
        bounded_distance(a, b) == bounded_distance(b, a),
    decreases a.len() + b.len(),
{
    if a.len() > 0 && b.len() > 0 {
        law_distance_symmetric(a.drop_last(), b);
        law_distance_symmetric(a, b.drop_last());
        law_distance_symmetric(a.drop_last(), b.drop_last());
    }
}

/// The edit distance lies between the difference of the lengths and the longer length.
pub proof fn law_distance_bounds(a: Seq<char>, b: Seq<char>)
    ensures
        edit_distance(a, b) >= a.len() - b.len(),
        edit_distance(a, b) >= b.len() - a.len(),
        edit_distance(a, b) <= a.len() || edit_distance(a, b) <= b.len(),
    decreases a.len() + b.len(),
{
    if a.len() > 0 && b.len() > 0 {
        law_distance_bounds(a.drop_last(), b);
        law_distance_bounds(a, b.drop_last());
        law_distance_bounds(a.drop_last(), b.drop_last());
    }
}

/// The edit distance is zero between a text and itself, and only there.
pub proof fn law_distance_zero(a: Seq<char>, b: Seq<char>)
    ensures
        edit_distance(a, b) == 0 <==> a == b,
        bounded_distance(a, b) == 0 <==> a == b && a.len() <= 20,
    decreases a.len() + b.len(),
{
    if a.len() > 0 && b.len() > 0 {
        law_distance_zero(a.drop_last(), b.drop_last());
        if a.drop_last() == b.drop_last() && a.last() == b.last() {
            assert(a =~= a.drop_last().push(a.last()));
            assert(b =~= b.drop_last().push(b.last()));
        }
    } else if a.len() == b.len() {
        assert(a =~= b);
    }
}

/// A detour over a third text is never shorter.
pub proof fn law_distance_triangle(a: Seq<char>, b: Seq<char>, c: Seq<char>)
    ensures
        edit_distance(a, c) <= edit_distance(a, b) + edit_distance(b, c),
    decreases a.len() + b.len() + c.len(),
{
    law_distance_bounds(a, b);
    law_distance_bounds(b, c);
    law_distance_bounds(a, c);
    if a.len() > 0 && b.len() > 0 && c.len() > 0 {
        let (x, y, z) = (a.drop_last(), b.drop_last(), c.drop_last());
        law_distance_triangle(x, b, c);
        law_distance_triangle(a, b, z);
        law_distance_triangle(a, y, c);
        law_distance_triangle(a, y, z);
        law_distance_triangle(x, y, c);
        law_distance_triangle(x, y, z);
    }
}

/// One step of the table: the distance of two prefixes from those of shorter ones.
proof fn lemma_step(a: Seq<char>, b: Seq<char>, i: int, j: int)
    requires
        0 < i <= a.len(),
        0 < j <= b.len(),
    ensures
        edit_distance(a.take(i), b.take(j)) == min2(
            min2(
                edit_distance(a.take(i - 1), b.take(j)) + 1,
                edit_distance(a.take(i), b.take(j - 1)) + 1,
            ),
            edit_distance(a.take(i - 1), b.take(j - 1)) + if a[i - 1] == b[j - 1] {
                0nat
            } else {
                1nat
            },
        ),
{
    assert(a.take(i).drop_last() =~= a.take(i - 1));
    assert(b.take(j).drop_last() =~= b.take(j - 1));
    assert(a.take(i).last() == a[i - 1]);
    assert(b.take(j).last() == b[j - 1]);
}

/// The edit distance of two texts; for texts of more than 20 characters, the longer length.
pub fn levenshtein_distance(a: &str, b: &str) -> (r: usize)
    ensures
        r == bounded_distance(a@, b@),
{
    let x = chars_of(a);
    let y = chars_of(b);
    let n: usize = x.len();
    let m: usize = y.len();
    if n > 20 || m > 20 {
        return if n > m {
            n
        } else {
            m
        };
    }
    let mut prev: Vec<usize> = Vec::new();
    let mut j: usize = 0;
    while j <= m
        invariant
            j <= m + 1,
            m <= 20,
            m == y@.len(),
            prev@.len() == j,
            forall|k: int|
                0 <= k < j ==> (#[trigger] prev@[k]) == edit_distance(x@.take(0), y@.take(k)),
            forall|k: int| 0 <= k < j ==> (#[trigger] prev@[k]) <= 20,
        decreases m + 1 - j,
    {
        prev.push(j);
        j += 1;
    }
    let mut i: usize = 1;
    while i <= n
        invariant
            1 <= i <= n + 1,
            n <= 20,
            m <= 20,
            n == x@.len(),
            m == y@.len(),
            prev@.len() == m + 1,
            forall|k: int|
                0 <= k <= m ==> (#[trigger] prev@[k]) == edit_distance(x@.take(i - 1), y@.take(k)),
            forall|k: int| 0 <= k <= m ==> (#[trigger] prev@[k]) <= 40,
        decreases n + 1 - i,
    {
        let mut cur: Vec<usize> = Vec::new();
        cur.push(i);
        let mut j: usize = 1;
        while j <= m
            invariant
                1 <= j <= m + 1,
                1 <= i <= n <= 20,
                m <= 20,
                n == x@.len(),
                m == y@.len(),
                prev@.len() == m + 1,
                cur@.len() == j,
                forall|k: int|
                    0 <= k <= m ==> (#[trigger] prev@[k]) == edit_distance(
                        x@.take(i - 1),
                        y@.take(k),
                    ),
                forall|k: int| 0 <= k <= m ==> (#[trigger] prev@[k]) <= 40,
                forall|k: int|
                    0 <= k < j ==> (#[trigger] cur@[k]) == edit_distance(
                        x@.take(i as int),
                        y@.take(k),
                    ),
                forall|k: int| 0 <= k < j ==> (#[trigger] cur@[k]) <= 40,
            decreases m + 1 - j,
        {
            let cost: usize = if x[i - 1] == y[j - 1] {
                0
            } else {
                1
            };
            let mut best: usize = prev[j] + 1;
            if cur[j - 1] + 1 < best {
                best = cur[j - 1] + 1;
            }
            if prev[j - 1] + cost < best {
                best = prev[j - 1] + cost;
            }
            proof {
                lemma_step(x@, y@, i as int, j as int);
                law_distance_bounds(x@.take(i as int), y@.take(j as int));
            }
            cur.push(best);
            j += 1;
        }
        prev = cur;
        i += 1;
    }
    assert(x@.take(n as int) =~= x@);
    assert(y@.take(m as int) =~= y@);
    prev[m]
}

/// The number of different ideographs of `a` that also occur in `b`.
pub open spec fn common_ideographs(a: Seq<char>, b: Seq<char>) -> nat
    decreases a.len(),
{
    if a.len() == 0 {
        0
    } else {
        common_ideographs(a.drop_last(), b) + if cjk(a.last()) && b.contains(a.last())
            && !a.drop_last().contains(a.last()) {
            1nat
        } else {
            0nat
        }
    }
}

/// The ideographs that two texts share.
spec fn shared_ideographs(a: Seq<char>, b: Seq<char>) -> Set<char> {
    a.to_set().intersect(b.to_set()).filter(|c: char| cjk(c))
}

/// The number of common ideographs is that of the ideographs that the texts share.
proof fn lemma_common_ideographs(a: Seq<char>, b: Seq<char>)
    ensures
        shared_ideographs(a, b).finite(),
        common_ideographs(a, b) == shared_ideographs(a, b).len(),
    decreases a.len(),
{
    if a.len() == 0 {
        assert(shared_ideographs(a, b) =~= Set::<char>::empty());
    } else {
        let front = a.drop_last();
        let c = a.last();
        lemma_common_ideographs(front, b);
        assert forall|x: char| a.contains(x) <==> front.contains(x) || x == c by {
            if front.contains(x) {
                let i = choose|i: int| 0 <= i < front.len() && front[i] == x;
                assert(a[i] == x);
            }
            if x == c {
                assert(a[a.len() - 1] == x);
            }
            if a.contains(x) && x != c {
                let i = choose|i: int| 0 <= i < a.len() && a[i] == x;
                assert(front[i] == x);
            }
        }
        if cjk(c) && b.contains(c) {
            assert(shared_ideographs(a, b) =~= shared_ideographs(front, b).insert(c));
        } else {
            assert(shared_ideographs(a, b) =~= shared_ideographs(front, b));
        }
    }
}

/// Whether two keywords look like words for the same thing: they differ, and they share
/// two different ideographs, or are at most two edits apart, or one is a part of the other.
pub open spec fn similar(a: Seq<char>, b: Seq<char>) -> bool {
    a != b && (common_ideographs(a, b) >= 2 || bounded_distance(a, b) <= 2 || occurs_in(a, b)
        || occurs_in(b, a))
}

/// Whether two keywords look alike does not depend on their order, and none looks like
/// itself.
pub proof fn law_similar_symmetric(a: Seq<char>, b: Seq<char>)
    ensures
        similar(a, b) == similar(b, a),
        !similar(a, a),
{
    lemma_common_ideographs(a, b);
    lemma_common_ideographs(b, a);
    assert(shared_ideographs(a, b) =~= shared_ideographs(b, a));
    law_distance_symmetric(a, b);
}

/// Whether a character is among the first `n` of a text.
fn has_char(v: &Vec<char>, n: usize, c: char) -> (r: bool)
    requires
        n <= v@.len(),
    ensures
        r == v@.take(n as int).contains(c),
{
    let mut i: usize = 0;
    while i < n
        invariant
            i <= n <= v@.len(),
            forall|j: int| 0 <= j < i ==> v@[j] != c,
        decreases n - i,
    {
        if v[i] == c {
            assert(v@.take(n as int)[i as int] == c);
            return true;
        }
        i += 1;
    }
    false
}

/// Whether two keywords look like words for the same thing.
pub fn is_similar_keyword(a: &str, b: &str) -> (r: bool)
    ensures
        r == similar(a@, b@),
{
    let x = chars_of(a);
    let y = chars_of(b);
    if same_chars(&x, &y) {
        return false;
    }
    let mut common: usize = 0;
    let mut i: usize = 0;
    while i < x.len()
        invariant
            i <= x@.len(),
            common <= i,
            common == common_ideographs(x@.take(i as int), y@),
        decreases x@.len() - i,
    {
        assert(x@.take(i + 1).drop_last() =~= x@.take(i as int));
        assert(x@.take(i + 1).last() == x@[i as int]);
        assert(y@.take(y@.len() as int) =~= y@);
        if is_cjk(x[i]) && has_char(&y, y.len(), x[i]) && !has_char(&x, i, x[i]) {
            common += 1;
        }
        i += 1;
    }
    assert(x@.take(i as int) =~= x@);
    if common >= 2 {
        return true;
    }
    if levenshtein_distance(a, b) <= 2 {
        return true;
    }
    holds_part(&x, &y) || holds_part(&y, &x)
}

/// What an `AliasManager` knows.
pub struct AliasView {
    /// For each other word, the keyword and its row id.
    pub aliases: Map<Seq<char>, (Seq<char>, i64)>,
    /// For each keyword that has other words, its row id.
    pub canonical_ids: Map<Seq<char>, i64>,
    /// How often each keyword was used.
    pub use_counts: Map<Seq<char>, u32>,
}

impl AliasView {
    /// How often a keyword was used; zero where nothing is known.
    pub open spec fn uses(self, t: Seq<char>) -> u32 {
        if self.use_counts.dom().contains(t) {
            self.use_counts[t]
        } else {
            0
        }
    }
}

/// Knows other words for keywords, and how often keywords are used.
#[derive(Debug)]
pub struct AliasManager {
    alias_to_canonical: TextMap<(KeywordToken, i64)>,
    canonical_id_by_text: TextMap<i64>,
    use_counts: TextMap<u32>,
}

/// Why an alias is refused, if it is.
pub open spec fn alias_error(alias: Seq<char>, canonical: Seq<char>) -> Option<Seq<char>> {
    if alias == canonical {
        Some("别名不能指向自身: '"@ + alias + "' 与规范词相同"@)
    } else if blank(canonical) {
        Some("规范词文本无效（空或纯空白）: '"@ + canonical + "'"@)
    } else {
        None
    }
}

/// What is known once an alias was entered. The row id of a keyword that is known stays.
pub open spec fn registered(
    m: AliasView,
    alias: Seq<char>,
    id: i64,
    canonical: Seq<char>,
) -> AliasView {
    let t = token_text(canonical);
    AliasView {
        aliases: m.aliases.insert(alias, (t, id)),
        canonical_ids: if m.canonical_ids.dom().contains(t) {
            m.canonical_ids
        } else {
            m.canonical_ids.insert(t, id)
        },
        ..m
    }
}

/// What is known once an alias was forgotten.
pub open spec fn unregistered(m: AliasView, alias: Seq<char>) -> AliasView {
    AliasView { aliases: m.aliases.remove(alias), ..m }
}

/// A proposal to make one keyword another word for a second one.
#[derive(Debug, Clone, PartialEq)]
pub struct MergeSuggestion {
    /// The keyword to keep.
    pub canonical_text: String,
    /// Its row id, zero where it has none yet.
    pub canonical_id: i64,
    /// The keyword to merge into it.
    pub alias_text: String,
    /// How often the keyword to merge is used at present.
    pub alias_use_count: u32,
    /// Why the two should be merged.
    pub reason: String,
}

/// What a `MergeSuggestion` says.
pub struct SuggestionView {
    pub canonical_text: Seq<char>,
    pub canonical_id: i64,
    pub alias_text: Seq<char>,
    pub alias_use_count: u32,
    pub reason: Seq<char>,
}

impl View for MergeSuggestion {
    type V = SuggestionView;

    open spec fn view(&self) -> SuggestionView {
        SuggestionView {
            canonical_text: self.canonical_text@,
            canonical_id: self.canonical_id,
            alias_text: self.alias_text@,
            alias_use_count: self.alias_use_count,
            reason: self.reason@,
        }
    }
}

/// What a sequence of suggestions says.
pub open spec fn suggestion_views(v: Seq<MergeSuggestion>) -> Seq<SuggestionView> {
    v.map_values(|s: MergeSuggestion| s@)
}

/// The proposal to let a much used alias take the place of its keyword.
pub open spec fn swap_suggestion(m: AliasView, k: Seq<char>, count: u32) -> SuggestionView {
    let (canonical, id) = m.aliases[k];
    SuggestionView {
        canonical_text: k,
        canonical_id: id,
        alias_text: canonical,
        alias_use_count: m.uses(canonical),
        reason: "别名 '"@ + k + "' (使用 "@ + decimal(count as nat)
            + " 次) 使用量高于当前规范词 '"@ + canonical + "' ("@ + decimal(
            m.uses(canonical) as nat,
        ) + " 次)，建议交换规范/别名角色"@,
    }
}

/// The proposal to merge the less used of two similar keywords into the other.
pub open spec fn merge_suggestion(
    m: AliasView,
    k1: Seq<char>,
    c1: u32,
    k2: Seq<char>,
    c2: u32,
) -> SuggestionView {
    let canonical = if c1 >= c2 {
        k1
    } else {
        k2
    };
    let alias = if c1 >= c2 {
        k2
    } else {
        k1
    };
    SuggestionView {
        canonical_text: canonical,
        canonical_id: 0,
        alias_text: alias,
        alias_use_count: m.uses(alias),
        reason: "'"@ + k1 + "' (使用 "@ + decimal(c1 as nat) + " 次) 与 '"@ + k2 + "' (使用 "@
            + decimal(c2 as nat) + " 次) 相似，建议合并到 '"@ + canonical + "'"@,
    }
}

/// The merges proposed for the keyword at `i` with those behind it, up to position `n`.
pub open spec fn merges_for(
    m: AliasView,
    min_use: u32,
    sorted: Seq<(Seq<char>, u32)>,
    i: int,
    n: int,
) -> Seq<SuggestionView>
    decreases n - i,
{
    if n <= i + 1 {
        Seq::empty()
    } else {
        let front = merges_for(m, min_use, sorted, i, n - 1);
        let (k2, c2) = sorted[n - 1];
        if c2 >= min_use && !m.aliases.dom().contains(k2) && similar(sorted[i].0, k2) {
            front.push(merge_suggestion(m, sorted[i].0, sorted[i].1, k2, c2))
        } else {
            front
        }
    }
}

/// The proposals for the keyword at `i`.
pub open spec fn suggestions_for(
    m: AliasView,
    min_use: u32,
    sorted: Seq<(Seq<char>, u32)>,
    i: int,
) -> Seq<SuggestionView> {
    let (k, count) = sorted[i];
    if count < min_use || m.canonical_ids.dom().contains(k) {
        Seq::empty()
    } else if m.aliases.dom().contains(k) {
        if m.uses(m.aliases[k].0) < count {
            seq![swap_suggestion(m, k, count)]
        } else {
            Seq::empty()
        }
    } else {
        merges_for(m, min_use, sorted, i, sorted.len() as int)
    }
}

/// The proposals for the first `n` keywords.
pub open spec fn suggestions_upto(
    m: AliasView,
    min_use: u32,
    sorted: Seq<(Seq<char>, u32)>,
    n: int,
) -> Seq<SuggestionView>
    decreases n,
{
    if n <= 0 {
        Seq::empty()
    } else {
        suggestions_upto(m, min_use, sorted, n - 1) + suggestions_for(m, min_use, sorted, n - 1)
    }
}

/// Whether `sorted` lists the counted keywords, each once, the most used first. Which of two
/// keywords with the same count comes first is left open.
pub open spec fn is_use_ranking(m: AliasView, sorted: Seq<(Seq<char>, u32)>) -> bool {
    &&& forall|i: int|
        0 <= i < sorted.len() ==> m.use_counts.dom().contains((#[trigger] sorted[i]).0)
            && m.use_counts[sorted[i].0] == sorted[i].1
    &&& forall|t: Seq<char>| #[trigger]
        m.use_counts.dom().contains(t) ==> exists|i: int|
            0 <= i < sorted.len() && (#[trigger] sorted[i]).0 == t
    &&& forall|a: int, b: int|
        0 <= a < b < sorted.len() ==> (#[trigger] sorted[a]).0 != (#[trigger] sorted[b]).0
            && sorted[a].1 >= sorted[b].1
}

/// The keys that put the suggestions for much used aliases first.
pub open spec fn weight_keys(v: Seq<SuggestionView>) -> Seq<Seq<i128>> {
    v.map_values(|s: SuggestionView| seq![(-s.alias_use_count) as i128])
}

/// `v` in the order `p`.
pub open spec fn arranged(v: Seq<SuggestionView>, p: Seq<usize>) -> Seq<SuggestionView> {
    Seq::new(p.len(), |j: int| v[p[j] as int])
}

impl AliasManager {
    /// What the manager knows.
    pub closed spec fn view(&self) -> AliasView {
        AliasView {
            aliases: self.alias_to_canonical@.map_values(|v: (KeywordToken, i64)| (v.0@, v.1)),
            canonical_ids: self.canonical_id_by_text@,
            use_counts: self.use_counts@,
        }
    }

    /// Whether the maps are well formed.
    pub closed spec fn wf(&self) -> bool {
        self.alias_to_canonical.wf() && self.canonical_id_by_text.wf() && self.use_counts.wf()
    }

    /// A manager that knows nothing.
    pub fn new() -> (r: Self)
        ensures
            r.wf(),
            r@.aliases == Map::<Seq<char>, (Seq<char>, i64)>::empty(),
            r@.canonical_ids == Map::<Seq<char>, i64>::empty(),
            r@.use_counts == Map::<Seq<char>, u32>::empty(),
    {
        let r = AliasManager {
            alias_to_canonical: TextMap::new(),
            canonical_id_by_text: TextMap::new(),
            use_counts: TextMap::new(),
        };
        assert(r@.aliases =~= Map::<Seq<char>, (Seq<char>, i64)>::empty());
        r
    }

    /// Enters another word for a keyword. A word that is known already is entered anew.
    pub fn register_alias(
        &mut self,
        alias_text: &str,
        canonical_id: i64,
        canonical_text: &str,
    ) -> (r: Result<(), String>)
        requires
            old(self).wf(),
        ensures
            final(self).wf(),
            match r {
                Ok(_) => {
                    &&& alias_error(alias_text@, canonical_text@) is None
                    &&& final(self)@ == registered(
                        old(self)@,
                        alias_text@,
                        canonical_id,
                        canonical_text@,
                    )
                },
                Err(e) => {
                    &&& alias_error(alias_text@, canonical_text@) == Some(e@)
                    &&& final(self)@ == old(self)@
                },
            },
    {
        if same_text(alias_text, canonical_text) {
            let mut out = chars_of("别名不能指向自身: '");
            append_chars(&mut out, &chars_of(alias_text));
            append_chars(&mut out, &chars_of("' 与规范词相同"));
            return Err(string_of(&out));
        }
        let token = match KeywordToken::new(canonical_text) {
            Some(t) => t,
            None => {
                let mut out = chars_of("规范词文本无效（空或纯空白）: '");
                append_chars(&mut out, &chars_of(canonical_text));
                append_chars(&mut out, &chars_of("'"));
                return Err(string_of(&out));
            },
        };
        let key = copy_text(token.as_str());
        let alias = copy_text(alias_text);
        let ghost t = token@;
        self.alias_to_canonical.insert(alias, (token, canonical_id));
        if !self.canonical_id_by_text.contains_key(key.as_str()) {
            self.canonical_id_by_text.insert(key, canonical_id);
        }
        assert(self@.aliases =~= old(self)@.aliases.insert(alias_text@, (t, canonical_id)));
        Ok(())
    }

    /// The keyword that a text is another word for, and its row id.
    pub fn resolve_alias(&self, alias_text: &str) -> (r: Option<(KeywordToken, i64)>)
        requires
            self.wf(),
        ensures
            match r {
                Some(v) => self@.aliases.dom().contains(alias_text@) && self@.aliases[alias_text@]
                    == (v.0@, v.1),
                None => !self@.aliases.dom().contains(alias_text@),
            },
    {
        match self.alias_to_canonical.get(alias_text) {
            Some(v) => Some((v.0.clone(), v.1)),
            None => None,
        }
    }

    /// The keyword that a text is another word for.
    pub fn resolve_alias_text(&self, alias_text: &str) -> (r: Option<&str>)
        requires
            self.wf(),
        ensures
            match r {
                Some(t) => self@.aliases.dom().contains(alias_text@)
                    && self@.aliases[alias_text@].0 == t@,
                None => !self@.aliases.dom().contains(alias_text@),
            },
    {
        match self.alias_to_canonical.get(alias_text) {
            Some(v) => Some(v.0.as_str()),
            None => None,
        }
    }

    /// Forgets another word; false where it was not known.
    pub fn unregister_alias(&mut self, alias_text: &str) -> (r: bool)
        requires
            old(self).wf(),
        ensures
            final(self).wf(),
            r == old(self)@.aliases.dom().contains(alias_text@),
            final(self)@ == unregistered(old(self)@, alias_text@),
    {
        let r = self.alias_to_canonical.remove(alias_text);
        assert(self@.aliases =~= old(self)@.aliases.remove(alias_text@));
        r
    }

    /// The row id of a keyword, looked up as it stands and then in its normal form.
    pub fn canonical_id(&self, canonical_text: &str) -> (r: Option<i64>)
        requires
            self.wf(),
        ensures
            r == (if self@.canonical_ids.dom().contains(canonical_text@) {
                Some(self@.canonical_ids[canonical_text@])
            } else if !blank(canonical_text@) && self@.canonical_ids.dom().contains(
                token_text(canonical_text@),
            ) {
                Some(self@.canonical_ids[token_text(canonical_text@)])
            } else {
                None
            }),
    {
        match self.canonical_id_by_text.get(canonical_text) {
            Some(id) => Some(*id),
            None => match KeywordToken::new(canonical_text) {
                Some(t) => match self.canonical_id_by_text.get(t.as_str()) {
                    Some(id) => Some(*id),
                    None => None,
                },
                None => None,
            },
        }
    }

    /// Whether a text is known as another word.
    pub fn is_alias(&self, keyword_text: &str) -> (r: bool)
        requires
            self.wf(),
        ensures
            r == self@.aliases.dom().contains(keyword_text@),
    {
        self.alias_to_canonical.contains_key(keyword_text)
    }

    /// The number of other words.
    pub fn alias_count(&self) -> (r: usize)
        requires
            self.wf(),
        ensures
            r == self@.aliases.dom().len(),
    {
        assert(self@.aliases.dom() =~= self.alias_to_canonical@.dom());
        self.alias_to_canonical.len()
    }

    /// The number of keywords that have, or had, other words.
    pub fn canonical_count(&self) -> (r: usize)
        requires
            self.wf(),
        ensures
            r == self@.canonical_ids.dom().len(),
    {
        self.canonical_id_by_text.len()
    }

    /// Sets how often keywords were used; of two counts for one keyword the later holds.
    pub fn load_use_counts(&mut self, counts: Vec<(String, u32)>)
        requires
            old(self).wf(),
        ensures
            final(self).wf(),
            final(self)@.aliases == old(self)@.aliases,
            final(self)@.canonical_ids == old(self)@.canonical_ids,
            final(self)@.use_counts == map_of(counts@),
    {
        let mut m: TextMap<u32> = TextMap::new();
        let mut i: usize = 0;
        assert(counts@.take(0) =~= Seq::<(String, u32)>::empty());
        while i < counts.len()
            invariant
                i <= counts@.len(),
                m.wf(),
                m@ == map_of(counts@.take(i as int)),
            decreases counts@.len() - i,
        {
            assert(counts@.take(i + 1).drop_last() =~= counts@.take(i as int));
            assert(counts@.take(i + 1).last() == counts@[i as int]);
            let key = counts[i].0.clone();
            m.insert(key, counts[i].1);
            i += 1;
        }
        assert(counts@.take(i as int) =~= counts@);
        self.use_counts = m;
    }

    /// How often a keyword was used; zero where nothing is known.
    pub fn use_count(&self, keyword_text: &str) -> (r: u32)
        requires
            self.wf(),
        ensures
            r == self@.uses(keyword_text@),
    {
        match self.use_counts.get(keyword_text) {
            Some(n) => *n,
            None => 0,
        }
    }

    /// Forgets everything.
    pub fn clear(&mut self)
        ensures
            final(self).wf(),
            final(self)@.aliases == Map::<Seq<char>, (Seq<char>, i64)>::empty(),
            final(self)@.canonical_ids == Map::<Seq<char>, i64>::empty(),
            final(self)@.use_counts == Map::<Seq<char>, u32>::empty(),
    {
        self.alias_to_canonical = TextMap::new();
        self.canonical_id_by_text = TextMap::new();
        self.use_counts = TextMap::new();
        assert(self@.aliases =~= Map::<Seq<char>, (Seq<char>, i64)>::empty());
    }
}

/// The counted keywords of a list of counts.
spec fn count_views(v: Seq<(String, u32)>) -> Seq<(Seq<char>, u32)> {
    v.map_values(|x: (String, u32)| (x.0@, x.1))
}

/// The keys that put much used keywords first.
spec fn count_keys(v: Seq<(String, u32)>) -> Seq<Seq<i128>> {
    v.map_values(|x: (String, u32)| seq![(-x.1) as i128])
}

impl AliasManager {
    /// The counted keywords, the most used first.
    fn ranked_counts(&self) -> (r: Vec<(String, u32)>)
        requires
            self.wf(),
        ensures
            is_use_ranking(self@, count_views(r@)),
    {
        let items = self.use_counts.items();
        let ghost list = self.use_counts.list();
        proof {
            self.use_counts.lemma_list();
            lemma_map_of(list);
        }
        let n: usize = items.len();
        let mut keys: Vec<Vec<i128>> = Vec::new();
        let mut i: usize = 0;
        assert(key_seqs(keys@) =~= count_keys(list).take(0));
        while i < n
            invariant
                i <= n,
                n == items@.len(),
                items@ == list,
                key_seqs(keys@) == count_keys(list).take(i as int),
            decreases n - i,
        {
            let mut key: Vec<i128> = Vec::new();
            key.push(-(items[i].1 as i128));
            assert(key@ =~= count_keys(list)[i as int]);
            let ghost before = key_seqs(keys@);
            let ghost kv = key@;
            keys.push(key);
            assert(key_seqs(keys@) =~= before.push(kv));
            i += 1;
            assert(count_keys(list).take(i as int) =~= count_keys(list).take(i - 1).push(kv));
        }
        assert(count_keys(list).take(i as int) =~= count_keys(list));
        let p = stable_order(&keys);
        let mut out: Vec<(String, u32)> = Vec::new();
        let mut j: usize = 0;
        while j < n
            invariant
                j <= n,
                n == items@.len(),
                items@ == list,
                p@.len() == n,
                forall|m: int| 0 <= m < p@.len() ==> 0 <= #[trigger] p@[m] < n,
                out@.len() == j,
                forall|m: int|
                    0 <= m < j ==> (#[trigger] out@[m]).0@ == list[p@[m] as int].0@ && out@[m].1
                        == list[p@[m] as int].1,
            decreases n - j,
        {
            let k: usize = p[j];
            let text = items[k].0.clone();
            out.push((text, items[k].1));
            j += 1;
        }
        proof {
            let sorted = count_views(out@);
            let counts = self@.use_counts;
            assert forall|i: int| 0 <= i < sorted.len() implies counts.dom().contains(
                (#[trigger] sorted[i]).0,
            ) && counts[sorted[i].0] == sorted[i].1 by {
                assert(sorted[i] == (out@[i].0@, out@[i].1));
                assert(counts.dom().contains(list[p@[i] as int].0@));
            }
            assert forall|a: int, b: int| 0 <= a < b < sorted.len() implies (
            #[trigger] sorted[a]).0 != (#[trigger] sorted[b]).0 && sorted[a].1 >= sorted[b].1 by {
                assert(sorted[a] == (out@[a].0@, out@[a].1));
                assert(sorted[b] == (out@[b].0@, out@[b].1));
                let x = p@[a] as int;
                let y = p@[b] as int;
                assert(x != y);
                if x < y {
                    assert(list[x].0@ != list[y].0@);
                } else {
                    assert(list[y].0@ != list[x].0@);
                }
                assert(crate::order::record_before(count_keys(list), p@[a] as int, p@[b] as int));
                reveal_with_fuel(crate::order::key_lt, 2);
                assert(count_keys(list)[x][0] == (-list[x].1) as i128);
                assert(count_keys(list)[y][0] == (-list[y].1) as i128);
            }
            assert forall|t: Seq<char>| #[trigger] counts.dom().contains(t) implies exists|i: int|
                0 <= i < sorted.len() && (#[trigger] sorted[i]).0 == t by {
                let k = choose|k: int| 0 <= k < list.len() && (#[trigger] list[k]).0@ == t;
                crate::order::lemma_lists_all(p@, n as int, k);
                let i = choose|i: int| 0 <= i < p@.len() && #[trigger] p@[i] == k;
                assert(sorted[i] == (out@[i].0@, out@[i].1));
                assert(sorted[i].0 == t);
            }
        }
        out
    }

    /// The proposals for one keyword.
    fn propose(&self, min_use: u32, sorted: &Vec<(String, u32)>, i: usize) -> (r: Vec<
        MergeSuggestion,
    >)
        requires
            self.wf(),
            i < sorted@.len(),
        ensures
            suggestion_views(r@) == suggestions_for(self@, min_use, count_views(sorted@), i as int),
    {
        let ghost all = count_views(sorted@);
        let k1 = &sorted[i].0;
        let c1: u32 = sorted[i].1;
        assert(all[i as int] == (k1@, c1));
        let mut out: Vec<MergeSuggestion> = Vec::new();
        assert(suggestion_views(out@) =~= Seq::<SuggestionView>::empty());
        if c1 < min_use || self.canonical_id_by_text.contains_key(k1.as_str()) {
            return out;
        }
        match self.resolve_alias(k1.as_str()) {
            Some((token, id)) => {
                let used: u32 = self.use_count(token.as_str());
                if used < c1 {
                    let mut m = chars_of("别名 '");
                    push_text(&mut m, k1.as_str());
                    push_text(&mut m, "' (使用 ");
                    push_number(&mut m, c1);
                    push_text(&mut m, " 次) 使用量高于当前规范词 '");
                    push_text(&mut m, token.as_str());
                    push_text(&mut m, "' (");
                    push_number(&mut m, used);
                    push_text(&mut m, " 次)，建议交换规范/别名角色");
                    let s = MergeSuggestion {
                        canonical_text: k1.clone(),
                        canonical_id: id,
                        alias_text: copy_text(token.as_str()),
                        alias_use_count: used,
                        reason: string_of(&m),
                    };
                    assert(s@ == swap_suggestion(self@, k1@, c1));
                    out.push(s);
                    assert(suggestion_views(out@) =~= seq![swap_suggestion(self@, k1@, c1)]);
                }
                return out;
            },
            None => {},
        }
        let n: usize = sorted.len();
        let mut j: usize = i + 1;
        while j < n
            invariant
                self.wf(),
                i < j <= n,
                n == sorted@.len(),
                all == count_views(sorted@),
                all[i as int] == (k1@, c1),
                suggestion_views(out@) == merges_for(self@, min_use, all, i as int, j as int),
            decreases n - j,
        {
            let k2 = &sorted[j].0;
            let c2: u32 = sorted[j].1;
            assert(all[j as int] == (k2@, c2));
            if c2 >= min_use && !self.alias_to_canonical.contains_key(k2.as_str())
                && is_similar_keyword(k1.as_str(), k2.as_str()) {
                let (canonical, alias) = if c1 >= c2 {
                    (k1, k2)
                } else {
                    (k2, k1)
                };
                let mut m = chars_of("'");
                push_text(&mut m, k1.as_str());
                push_text(&mut m, "' (使用 ");
                push_number(&mut m, c1);
                push_text(&mut m, " 次) 与 '");
                push_text(&mut m, k2.as_str());
                push_text(&mut m, "' (使用 ");
                push_number(&mut m, c2);
                push_text(&mut m, " 次) 相似，建议合并到 '");
                push_text(&mut m, canonical.as_str());
                push_text(&mut m, "'");
                let s = MergeSuggestion {
                    canonical_text: canonical.clone(),
                    canonical_id: 0,
                    alias_text: alias.clone(),
                    alias_use_count: self.use_count(alias.as_str()),
                    reason: string_of(&m),
                };
                assert(s@ == merge_suggestion(self@, k1@, c1, k2@, c2));
                let ghost before = suggestion_views(out@);
                let ghost sv = s@;
                out.push(s);
                assert(suggestion_views(out@) =~= before.push(sv));
            }
            j += 1;
        }
        out
    }

    /// Proposes which keywords to merge. Keywords with less than `min_use_for_suggestion`
    /// uses take no part. Proposals for much used aliases come first.
    pub fn suggest_merges(&self, min_use_for_suggestion: u32) -> (r: Vec<MergeSuggestion>)
        requires
            self.wf(),
        ensures
            exists|sorted: Seq<(Seq<char>, u32)>, p: Seq<usize>|
                {
                    &&& #[trigger] is_use_ranking(self@, sorted)
                    &&& #[trigger] ordered_by(
                        p,
                        weight_keys(
                            suggestions_upto(
                                self@,
                                min_use_for_suggestion,
                                sorted,
                                sorted.len() as int,
                            ),
                        ),
                    )
                    &&& suggestion_views(r@) == arranged(
                        suggestions_upto(
                            self@,
                            min_use_for_suggestion,
                            sorted,
                            sorted.len() as int,
                        ),
                        p,
                    )
                },
    {
        let counts = self.ranked_counts();
        let ghost sorted = count_views(counts@);
        let mut all: Vec<MergeSuggestion> = Vec::new();
        let mut keys: Vec<Vec<i128>> = Vec::new();
        let mut i: usize = 0;
        assert(suggestion_views(all@) =~= Seq::<SuggestionView>::empty());
        assert(key_seqs(keys@) =~= weight_keys(suggestion_views(all@)));
        while i < counts.len()
            invariant
                self.wf(),
                i <= counts@.len(),
                sorted == count_views(counts@),
                suggestion_views(all@) == suggestions_upto(
                    self@,
                    min_use_for_suggestion,
                    sorted,
                    i as int,
                ),
                key_seqs(keys@) == weight_keys(suggestion_views(all@)),
            decreases counts@.len() - i,
        {
            let more = self.propose(min_use_for_suggestion, &counts, i);
            let ghost before = suggestion_views(all@);
            let ghost extra = suggestion_views(more@);
            let mut k: usize = 0;
            assert(suggestion_views(all@) =~= before + extra.take(0));
            while k < more.len()
                invariant
                    k <= more@.len(),
                    extra == suggestion_views(more@),
                    suggestion_views(all@) == before + extra.take(k as int),
                    key_seqs(keys@) == weight_keys(suggestion_views(all@)),
                decreases more@.len() - k,
            {
                let s = &more[k];
                let copy = MergeSuggestion {
                    canonical_text: s.canonical_text.clone(),
                    canonical_id: s.canonical_id,
                    alias_text: s.alias_text.clone(),
                    alias_use_count: s.alias_use_count,
                    reason: s.reason.clone(),
                };
                let mut key: Vec<i128> = Vec::new();
                key.push(-(s.alias_use_count as i128));
                assert(key@ =~= seq![(-s@.alias_use_count) as i128]);
                let ghost kv = key@;
                let ghost old_keys = key_seqs(keys@);
                let ghost old_all = suggestion_views(all@);
                assert(copy@ == s@);
                all.push(copy);
                keys.push(key);
                assert(suggestion_views(all@) =~= old_all.push(s@));
                assert(key_seqs(keys@) =~= old_keys.push(kv));
                assert(weight_keys(old_all.push(s@)) =~= weight_keys(old_all).push(kv));
                k += 1;
                assert(before + extra.take(k as int) =~= (before + extra.take(k - 1)).push(
                    extra[k - 1],
                ));
            }
            assert(extra.take(k as int) =~= extra);
            i += 1;
        }
        let p = stable_order(&keys);
        let ghost goal = arranged(suggestion_views(all@), p@);
        let mut out: Vec<MergeSuggestion> = Vec::new();
        let mut j: usize = 0;
        assert(suggestion_views(out@) =~= goal.take(0));
        while j < p.len()
            invariant
                j <= p@.len(),
                goal == arranged(suggestion_views(all@), p@),
                forall|m: int| 0 <= m < p@.len() ==> 0 <= #[trigger] p@[m] < all@.len(),
                suggestion_views(out@) == goal.take(j as int),
            decreases p@.len() - j,
        {
            let s = &all[p[j]];
            let copy = MergeSuggestion {
                canonical_text: s.canonical_text.clone(),
                canonical_id: s.canonical_id,
                alias_text: s.alias_text.clone(),
                alias_use_count: s.alias_use_count,
                reason: s.reason.clone(),
            };
            assert(copy@ == goal[j as int]);
            let ghost before = suggestion_views(out@);
            out.push(copy);
            assert(suggestion_views(out@) =~= before.push(goal[j as int]));
            j += 1;
            assert(goal.take(j as int) =~= goal.take(j - 1).push(goal[j - 1]));
        }
        assert(goal.take(j as int) =~= goal);
        proof {
            assert(is_use_ranking(self@, sorted));
            assert(ordered_by(
                p@,
                weight_keys(
                    suggestions_upto(self@, min_use_for_suggestion, sorted, sorted.len() as int),
                ),
            ));
        }
        out
    }
}

impl Default for AliasManager {
    fn default() -> (r: Self)
        ensures
            r.wf(),
            r@.aliases == Map::<Seq<char>, (Seq<char>, i64)>::empty(),
            r@.canonical_ids == Map::<Seq<char>, i64>::empty(),
            r@.use_counts == Map::<Seq<char>, u32>::empty(),
    {
        AliasManager::new()
    }
}

/// An alias that was entered is resolved to the normal form of its keyword, and its keyword
/// has a row id; other aliases stay.
pub proof fn law_registered_is_resolved(
    m: AliasView,
    alias: Seq<char>,
    id: i64,
    canonical: Seq<char>,
    other: Seq<char>,
)
    requires
        other != alias,
    ensures
        registered(m, alias, id, canonical).aliases.dom().contains(alias),
        registered(m, alias, id, canonical).aliases[alias] == (token_text(canonical), id),
        registered(m, alias, id, canonical).canonical_ids.dom().contains(token_text(canonical)),
        registered(m, alias, id, canonical).aliases.dom().contains(other)
            == m.aliases.dom().contains(other),
        m.aliases.dom().contains(other) ==> registered(m, alias, id, canonical).aliases[other]
            == m.aliases[other],
{
}

/// Forgetting an alias undoes entering it, as far as aliases go, where it was not known
/// before.
pub proof fn law_unregister_undoes_register(
    m: AliasView,
    alias: Seq<char>,
    id: i64,
    canonical: Seq<char>,
)
    requires
        !m.aliases.dom().contains(alias),
    ensures
        unregistered(registered(m, alias, id, canonical), alias).aliases == m.aliases,
        unregistered(registered(m, alias, id, canonical), alias).use_counts == m.use_counts,
{
    assert(unregistered(registered(m, alias, id, canonical), alias).aliases =~= m.aliases);
}

/// An alias that was entered twice goes to the keyword that came last.
pub proof fn law_later_registration_holds(
    m: AliasView,
    alias: Seq<char>,
    id1: i64,
    canonical1: Seq<char>,
    id2: i64,
    canonical2: Seq<char>,
)
    ensures
        registered(registered(m, alias, id1, canonical1), alias, id2, canonical2).aliases
            == registered(m, alias, id2, canonical2).aliases,
{
    assert(registered(registered(m, alias, id1, canonical1), alias, id2, canonical2).aliases
        =~= registered(m, alias, id2, canonical2).aliases);
}

/// Where every keyword is used too seldom, nothing is proposed.
pub proof fn law_rare_keywords_give_nothing(
    m: AliasView,
    min_use: u32,
    sorted: Seq<(Seq<char>, u32)>,
    n: int,
)
    requires
        is_use_ranking(m, sorted),
        forall|t: Seq<char>| #[trigger] m.use_counts.dom().contains(t) ==> m.use_counts[t] < min_use,
        n <= sorted.len(),
    ensures
        suggestions_upto(m, min_use, sorted, n) == Seq::<SuggestionView>::empty(),
    decreases n,
{
    if n > 0 {
        law_rare_keywords_give_nothing(m, min_use, sorted, n - 1);
        assert(m.use_counts.dom().contains(sorted[n - 1].0));
        assert(suggestions_upto(m, min_use, sorted, n) =~= Seq::<SuggestionView>::empty());
    }
}

/// The same ending does not make texts more distant.
proof fn lemma_same_ending(a: Seq<char>, b: Seq<char>, s: Seq<char>)
    ensures
        edit_distance(a + s, b + s) <= edit_distance(a, b),
    decreases s.len(),
{
    if s.len() == 0 {
        assert(a + s =~= a && b + s =~= b);
    } else {
        lemma_same_ending(a, b, s.drop_last());
        assert((a + s).drop_last() =~= a + s.drop_last());
        assert((b + s).drop_last() =~= b + s.drop_last());
        assert((a + s).last() == s.last() && (b + s).last() == s.last());
    }
}

/// Inserting a character, deleting one or replacing one is at most one edit.
pub proof fn law_one_edit_costs_one(a: Seq<char>, i: int, x: char)
    ensures
        0 <= i <= a.len() ==> edit_distance(a, a.insert(i, x)) == 1,
        0 <= i < a.len() ==> edit_distance(a, a.remove(i)) == 1,
        0 <= i < a.len() && x != a[i] ==> edit_distance(a, a.update(i, x)) == 1,
{
    if 0 <= i <= a.len() {
        let p = a.take(i);
        let s = a.skip(i);
        assert(a =~= p + s);
        assert(a.insert(i, x) =~= p.push(x) + s);
        law_distance_zero(p, p);
        assert(p.push(x).drop_last() =~= p);
        assert(edit_distance(p, p.push(x)) <= 1) by {
            if p.len() > 0 {
                assert(edit_distance(p, p.push(x).drop_last()) == 0);
            }
        }
        lemma_same_ending(p, p.push(x), s);
        law_distance_bounds(a, a.insert(i, x));
    }
    if 0 <= i < a.len() {
        let p = a.take(i);
        let q = a.take(i + 1);
        let s = a.skip(i + 1);
        assert(a =~= q + s);
        assert(q.drop_last() =~= p);
        assert(a.remove(i) =~= p + s);
        assert(a.update(i, x) =~= p.push(x) + s);
        assert(p.push(x).drop_last() =~= p);
        law_distance_zero(p, p);
        assert(edit_distance(q, p) <= 1) by {
            if p.len() > 0 {
                assert(edit_distance(q.drop_last(), p) == 0);
            }
        }
        assert(edit_distance(q, p.push(x)) <= 1);
        lemma_same_ending(q, p, s);
        lemma_same_ending(q, p.push(x), s);
        law_distance_bounds(a, a.remove(i));
        law_distance_zero(a, a.update(i, x));
        assert(a.update(i, x)[i] == x);
    }
}

/// Different texts can be brought nearer to each other: there is one character to insert, to
/// delete or to replace after which the distance is one less.
pub proof fn law_edits_lead_there(a: Seq<char>, b: Seq<char>) -> (w: (Seq<char>, int, char))
    requires
        a != b,
    ensures
        edit_distance(a, b) == edit_distance(w.0, b) + 1,
        (0 <= w.1 <= a.len() && w.0 == a.insert(w.1, w.2)) || (0 <= w.1 < a.len() && w.0 == a.remove(
            w.1,
        )) || (0 <= w.1 < a.len() && w.0 == a.update(w.1, w.2)),
    decreases a.len(),
{
    law_distance_zero(a, b);
    if a.len() == 0 {
        let x = b.last();
        let c = a.insert(0, x);
        assert(c.len() == 1 && c.last() == x);
        assert(c.drop_last() =~= a);
        law_distance_bounds(c, b);
        assert(edit_distance(c, b) <= edit_distance(c.drop_last(), b.drop_last()));
        (c, 0, x)
    } else if b.len() == 0 {
        let c = a.remove(a.len() - 1);
        assert(c =~= a.drop_last());
        assert(edit_distance(c, b) == c.len());
        (c, a.len() - 1, 'x')
    } else {
        let front = a.drop_last();
        let x = b.last();
        if edit_distance(a, b) == edit_distance(front, b) + 1 {
            assert(front =~= a.remove(a.len() - 1));
            (front, a.len() - 1, x)
        } else if edit_distance(a, b) == edit_distance(a, b.drop_last()) + 1 {
            let n = a.len() as int;
            let c = a.insert(n, x);
            assert(c =~= a.push(x));
            assert(c.drop_last() =~= a);
            assert(edit_distance(c, b) <= edit_distance(a, b.drop_last()));
            law_one_edit_costs_one(a, n, x);
            law_distance_triangle(a, c, b);
            (c, n, x)
        } else if a.last() == x {
            assert(edit_distance(a, b) == edit_distance(front, b.drop_last()));
            law_distance_zero(front, b.drop_last());
            let w = law_edits_lead_there(front, b.drop_last());
            let c = w.0.push(x);
            assert(c.drop_last() =~= w.0);
            assert(edit_distance(c, b) <= edit_distance(w.0, b.drop_last()));
            if 0 <= w.1 <= front.len() && w.0 == front.insert(w.1, w.2) {
                assert(c =~= a.insert(w.1, w.2));
            } else if 0 <= w.1 < front.len() && w.0 == front.remove(w.1) {
                assert(c =~= a.remove(w.1));
            } else {
                assert(c =~= a.update(w.1, w.2));
            }
            law_one_edit_costs_one(a, w.1, w.2);
            if c == a.update(w.1, w.2) && 0 <= w.1 < a.len() && w.2 == a[w.1] {
                assert(c =~= a);
                law_distance_zero(a, a);
            }
            law_distance_triangle(a, c, b);
            (c, w.1, w.2)
        } else {
            let i = a.len() - 1;
            let c = a.update(i, x);
            assert(c =~= front.push(x));
            assert(c.drop_last() =~= front);
            assert(edit_distance(c, b) <= edit_distance(front, b.drop_last()));
            law_one_edit_costs_one(a, i, x);
            law_distance_triangle(a, c, b);
            (c, i, x)
        }
    }
}

/// Texts of more than twenty characters are not compared: their distance is the longer length.
pub proof fn law_long_texts_are_distant(a: Seq<char>, b: Seq<char>)
    ensures
        a.len() <= 20 && b.len() <= 20 ==> bounded_distance(a, b) == edit_distance(a, b),
        a.len() > 20 || b.len() > 20 ==> bounded_distance(a, b) >= a.len() && bounded_distance(a, b)
            >= b.len() && (bounded_distance(a, b) == a.len() || bounded_distance(a, b) == b.len()),
{
}

/// Two keywords look alike where they differ and one of these holds: they share two different
/// ideographs, they have at most twenty characters and are at most two edits apart, or one stands
/// somewhere in the other.
pub proof fn law_what_looks_alike(a: Seq<char>, b: Seq<char>)
    ensures
        similar(a, b) <==> a != b && {
            ||| exists|i: int, j: int|
                0 <= i < j < a.len() && #[trigger] a[i] != #[trigger] a[j] && cjk(a[i]) && cjk(a[j])
                    && b.contains(a[i]) && b.contains(a[j])
            ||| a.len() <= 20 && b.len() <= 20 && edit_distance(a, b) <= 2
            ||| exists|i: int|
                0 <= i && i + b.len() <= a.len() && #[trigger] a.subrange(i, i + b.len()) == b
            ||| exists|i: int|
                0 <= i && i + a.len() <= b.len() && #[trigger] b.subrange(i, i + a.len()) == a
        },
{
    lemma_two_ideographs(a, b);
    if occurs_in(a, b) {
        let i = choose|i: int| crate::text::occurs_at(a, b, i);
        assert(a.subrange(i, i + b.len()) == b);
    }
    if occurs_in(b, a) {
        let i = choose|i: int| crate::text::occurs_at(b, a, i);
        assert(b.subrange(i, i + a.len()) == a);
    }
    if exists|i: int| 0 <= i && i + b.len() <= a.len() && #[trigger] a.subrange(i, i + b.len()) == b {
        let i = choose|i: int|
            0 <= i && i + b.len() <= a.len() && #[trigger] a.subrange(i, i + b.len()) == b;
        assert(crate::text::occurs_at(a, b, i));
    }
    if exists|i: int| 0 <= i && i + a.len() <= b.len() && #[trigger] b.subrange(i, i + a.len()) == a {
        let i = choose|i: int|
            0 <= i && i + a.len() <= b.len() && #[trigger] b.subrange(i, i + a.len()) == a;
        assert(crate::text::occurs_at(b, a, i));
    }
}

proof fn lemma_two_ideographs(a: Seq<char>, b: Seq<char>)
    ensures
        common_ideographs(a, b) >= 2 <==> exists|i: int, j: int|
            0 <= i < j < a.len() && #[trigger] a[i] != #[trigger] a[j] && cjk(a[i]) && cjk(a[j])
                && b.contains(a[i]) && b.contains(a[j]),
{
    let s = shared_ideographs(a, b);
    lemma_common_ideographs(a, b);
    if s.len() >= 2 {
        let x = s.choose();
        assert(s.contains(x));
        let t = s.remove(x);
        assert(t.len() >= 1);
        let y = t.choose();
        assert(t.contains(y));
        let i = choose|i: int| 0 <= i < a.len() && a[i] == x;
        let j = choose|j: int| 0 <= j < a.len() && a[j] == y;
        if i < j {
            assert(a[i] != a[j]);
        } else {
            assert(a[j] != a[i]);
        }
    }
    if exists|i: int, j: int|
        0 <= i < j < a.len() && #[trigger] a[i] != #[trigger] a[j] && cjk(a[i]) && cjk(a[j])
            && b.contains(a[i]) && b.contains(a[j]) {
        let (i, j) = choose|i: int, j: int|
            0 <= i < j < a.len() && #[trigger] a[i] != #[trigger] a[j] && cjk(a[i]) && cjk(a[j])
                && b.contains(a[i]) && b.contains(a[j]);
        assert(s.contains(a[i]));
        assert(s.remove(a[i]).contains(a[j]));
        assert(s.remove(a[i]).len() > 0) by {
            if s.remove(a[i]).len() == 0 {
                assert(s.remove(a[i]) =~= Set::<char>::empty());
            }
        }
    }
}

/// Entering a word is refused where it is the keyword itself, and where the keyword is blank.
pub proof fn law_refused_words(alias: Seq<char>, canonical: Seq<char>)
    ensures
        alias == canonical ==> alias_error(alias, canonical) == Some(
            "别名不能指向自身: '"@ + alias + "' 与规范词相同"@,
        ),
        alias != canonical && blank(canonical) ==> alias_error(alias, canonical) == Some(
            "规范词文本无效（空或纯空白）: '"@ + canonical + "'"@,
        ),
        alias != canonical && !blank(canonical) ==> alias_error(alias, canonical) is None,
{
}

/// A keyword keeps the first row id that it was entered with; entering a word changes no other
/// row id and no count. Forgetting a word changes neither.
pub proof fn law_first_row_id_stays(
    m: AliasView,
    alias: Seq<char>,
    id: i64,
    canonical: Seq<char>,
    t: Seq<char>,
)
    ensures
        registered(m, alias, id, canonical).use_counts == m.use_counts,
        m.canonical_ids.dom().contains(t) ==> registered(
            m,
            alias,
            id,
            canonical,
        ).canonical_ids.dom().contains(t) && registered(m, alias, id, canonical).canonical_ids[t]
            == m.canonical_ids[t],
        !m.canonical_ids.dom().contains(t) ==> (registered(
            m,
            alias,
            id,
            canonical,
        ).canonical_ids.dom().contains(t) <==> t == token_text(canonical)),
        !m.canonical_ids.dom().contains(token_text(canonical)) ==> registered(
            m,
            alias,
            id,
            canonical,
        ).canonical_ids[token_text(canonical)] == id,
        unregistered(m, alias).canonical_ids == m.canonical_ids,
        unregistered(m, alias).use_counts == m.use_counts,
        unregistered(m, alias).aliases == m.aliases.remove(alias),
        m.use_counts.dom().contains(t) ==> m.uses(t) == m.use_counts[t],
        !m.use_counts.dom().contains(t) ==> m.uses(t) == 0,
{
}

/// A word that is used more than the keyword it stands for is proposed in its place. Of two
/// keywords that look alike the one used more is proposed for the other.
pub proof fn law_the_more_used_is_proposed(
    m: AliasView,
    k1: Seq<char>,
    c1: u32,
    k2: Seq<char>,
    c2: u32,
)
    ensures
        ({
            let s = swap_suggestion(m, k1, c1);
            &&& s.canonical_text == k1
            &&& s.canonical_id == m.aliases[k1].1
            &&& s.alias_text == m.aliases[k1].0
            &&& s.alias_use_count == m.uses(m.aliases[k1].0)
            &&& s.reason == "别名 '"@ + k1 + "' (使用 "@ + decimal(c1 as nat)
                + " 次) 使用量高于当前规范词 '"@ + m.aliases[k1].0 + "' ("@ + decimal(
                m.uses(m.aliases[k1].0) as nat,
            ) + " 次)，建议交换规范/别名角色"@
        }),
        ({
            let s = merge_suggestion(m, k1, c1, k2, c2);
            &&& c1 >= c2 ==> s.canonical_text == k1 && s.alias_text == k2
            &&& c1 < c2 ==> s.canonical_text == k2 && s.alias_text == k1
            &&& s.canonical_id == 0
            &&& s.alias_use_count == m.uses(s.alias_text)
            &&& s.reason == "'"@ + k1 + "' (使用 "@ + decimal(c1 as nat) + " 次) 与 '"@ + k2
                + "' (使用 "@ + decimal(c2 as nat) + " 次) 相似，建议合并到 '"@
                + s.canonical_text + "'"@
        }),
{
}

/// Everything that is to be proposed is proposed, and nothing else: every word that is used
/// often enough and more than its keyword, and every pair of keywords that are used often enough
/// and look alike, where none is a word for another keyword and the more used one has no row id.
pub proof fn law_all_proposals_are_made(
    m: AliasView,
    min_use: u32,
    sorted: Seq<(Seq<char>, u32)>,
    s: SuggestionView,
)
    ensures
        suggestions_upto(m, min_use, sorted, sorted.len() as int).contains(s) <==> {
            ||| exists|i: int|
                0 <= i < sorted.len() && (#[trigger] sorted[i]).1 >= min_use
                    && !m.canonical_ids.dom().contains(sorted[i].0) && m.aliases.dom().contains(
                    sorted[i].0,
                ) && m.uses(m.aliases[sorted[i].0].0) < sorted[i].1 && s == swap_suggestion(
                    m,
                    sorted[i].0,
                    sorted[i].1,
                )
            ||| exists|i: int, j: int|
                0 <= i < j < sorted.len() && (#[trigger] sorted[i]).1 >= min_use && (
                #[trigger] sorted[j]).1 >= min_use && !m.canonical_ids.dom().contains(sorted[i].0)
                    && !m.aliases.dom().contains(sorted[i].0) && !m.aliases.dom().contains(
                    sorted[j].0,
                ) && similar(sorted[i].0, sorted[j].0) && s == merge_suggestion(
                    m,
                    sorted[i].0,
                    sorted[i].1,
                    sorted[j].0,
                    sorted[j].1,
                )
        },
{
    let n = sorted.len() as int;
    let all = suggestions_upto(m, min_use, sorted, n);
    lemma_proposed(m, min_use, sorted, n, s);
    if all.contains(s) {
        let i = choose|i: int|
            0 <= i < n && #[trigger] suggestions_for(m, min_use, sorted, i).contains(s);
        if m.aliases.dom().contains(sorted[i].0) {
            assert(s == swap_suggestion(m, sorted[i].0, sorted[i].1));
        } else {
            lemma_merges(m, min_use, sorted, i, n, s);
        }
    }
    if exists|i: int|
        0 <= i < sorted.len() && (#[trigger] sorted[i]).1 >= min_use
            && !m.canonical_ids.dom().contains(sorted[i].0) && m.aliases.dom().contains(
            sorted[i].0,
        ) && m.uses(m.aliases[sorted[i].0].0) < sorted[i].1 && s == swap_suggestion(
            m,
            sorted[i].0,
            sorted[i].1,
        ) {
        let i = choose|i: int|
            0 <= i < sorted.len() && (#[trigger] sorted[i]).1 >= min_use
                && !m.canonical_ids.dom().contains(sorted[i].0) && m.aliases.dom().contains(
                sorted[i].0,
            ) && m.uses(m.aliases[sorted[i].0].0) < sorted[i].1 && s == swap_suggestion(
                m,
                sorted[i].0,
                sorted[i].1,
            );
        assert(suggestions_for(m, min_use, sorted, i)[0] == s);
        assert(suggestions_for(m, min_use, sorted, i).contains(s));
    }
    if exists|i: int, j: int|
        0 <= i < j < sorted.len() && (#[trigger] sorted[i]).1 >= min_use && (#[trigger] sorted[j]).1
            >= min_use && !m.canonical_ids.dom().contains(sorted[i].0) && !m.aliases.dom().contains(
            sorted[i].0,
        ) && !m.aliases.dom().contains(sorted[j].0) && similar(sorted[i].0, sorted[j].0) && s
            == merge_suggestion(m, sorted[i].0, sorted[i].1, sorted[j].0, sorted[j].1) {
        let (i, j) = choose|i: int, j: int|
            0 <= i < j < sorted.len() && (#[trigger] sorted[i]).1 >= min_use && (
            #[trigger] sorted[j]).1 >= min_use && !m.canonical_ids.dom().contains(sorted[i].0)
                && !m.aliases.dom().contains(sorted[i].0) && !m.aliases.dom().contains(sorted[j].0)
                && similar(sorted[i].0, sorted[j].0) && s == merge_suggestion(
                m,
                sorted[i].0,
                sorted[i].1,
                sorted[j].0,
                sorted[j].1,
            );
        lemma_merges(m, min_use, sorted, i, n, s);
        assert(suggestions_for(m, min_use, sorted, i).contains(s));
    }
}

proof fn lemma_proposed(
    m: AliasView,
    min_use: u32,
    sorted: Seq<(Seq<char>, u32)>,
    n: int,
    s: SuggestionView,
)
    ensures
        suggestions_upto(m, min_use, sorted, n).contains(s) <==> exists|i: int|
            0 <= i < n && #[trigger] suggestions_for(m, min_use, sorted, i).contains(s),
    decreases n,
{
    if n > 0 {
        let a = suggestions_upto(m, min_use, sorted, n - 1);
        let b = suggestions_for(m, min_use, sorted, n - 1);
        lemma_proposed(m, min_use, sorted, n - 1, s);
        if (a + b).contains(s) {
            let k = choose|k: int| 0 <= k < (a + b).len() && (a + b)[k] == s;
            if k < a.len() {
                assert(a[k] == s);
                assert(a.contains(s));
            } else {
                assert(b[k - a.len()] == s);
                assert(b.contains(s));
            }
        }
        if a.contains(s) {
            let k = choose|k: int| 0 <= k < a.len() && a[k] == s;
            assert((a + b)[k] == s);
        }
        if b.contains(s) {
            let k = choose|k: int| 0 <= k < b.len() && b[k] == s;
            assert((a + b)[a.len() + k] == s);
        }
    }
}

proof fn lemma_merges(
    m: AliasView,
    min_use: u32,
    sorted: Seq<(Seq<char>, u32)>,
    i: int,
    n: int,
    s: SuggestionView,
)
    ensures
        merges_for(m, min_use, sorted, i, n).contains(s) <==> exists|j: int|
            i < j < n && (#[trigger] sorted[j]).1 >= min_use && !m.aliases.dom().contains(
                sorted[j].0,
            ) && similar(sorted[i].0, sorted[j].0) && s == merge_suggestion(
                m,
                sorted[i].0,
                sorted[i].1,
                sorted[j].0,
                sorted[j].1,
            ),
    decreases n - i,
{
    if n > i + 1 {
        let front = merges_for(m, min_use, sorted, i, n - 1);
        let all = merges_for(m, min_use, sorted, i, n);
        lemma_merges(m, min_use, sorted, i, n - 1, s);
        if all.contains(s) {
            let k = choose|k: int| 0 <= k < all.len() && all[k] == s;
            if k < front.len() {
                assert(front[k] == s);
                assert(front.contains(s));
            } else {
                assert(sorted[n - 1].1 >= min_use);
            }
        }
        if front.contains(s) {
            let k = choose|k: int| 0 <= k < front.len() && front[k] == s;
            assert(all[k] == s);
        }
        if sorted[n - 1].1 >= min_use && !m.aliases.dom().contains(sorted[n - 1].0) && similar(
            sorted[i].0,
            sorted[n - 1].0,
        ) && s == merge_suggestion(m, sorted[i].0, sorted[i].1, sorted[n - 1].0, sorted[n - 1].1) {
            assert(all[front.len() as int] == s);
        }
    }
}

/// Proposals come in the order of how often what they replace is used, often first; all of them
/// come, each as often as it was made.
pub proof fn law_weighty_proposals_come_first(v: Seq<SuggestionView>, p: Seq<usize>)
    requires
        ordered_by(p, weight_keys(v)),
    ensures
        arranged(v, p).len() == v.len(),
        p.no_duplicates(),
        forall|a: int|
            0 <= a < p.len() ==> 0 <= #[trigger] p[a] < v.len() && arranged(v, p)[a] == v[p[a] as int],
        forall|a: int, b: int|
            0 <= a < b < v.len() ==> (#[trigger] arranged(v, p)[a]).alias_use_count >= (
            #[trigger] arranged(v, p)[b]).alias_use_count,
{
    let keys = weight_keys(v);
    crate::order::law_order_lists_all(p, keys);
    assert forall|a: int, b: int| 0 <= a < b < v.len() implies (
    #[trigger] arranged(v, p)[a]).alias_use_count >= (
    #[trigger] arranged(v, p)[b]).alias_use_count by {
        let s = keys[p[a] as int];
        let t = keys[p[b] as int];
        assert(!crate::order::key_lt(t, s));
        assert(s[0] == -v[p[a] as int].alias_use_count && t[0] == -v[p[b] as int].alias_use_count);
    }
}

/// What a proposal says is what stands in its fields.
pub proof fn law_proposals_are_seen(s: MergeSuggestion)
    ensures
        s@.canonical_text == s.canonical_text@ && s@.canonical_id == s.canonical_id,
        s@.alias_text == s.alias_text@ && s@.alias_use_count == s.alias_use_count,
        s@.reason == s.reason@,
{
}

/// What a list of proposals says is what each of them says, in order.
pub proof fn law_lists_of_proposals(v: Seq<MergeSuggestion>)
    ensures
        suggestion_views(v).len() == v.len(),
        forall|i: int| 0 <= i < v.len() ==> #[trigger] suggestion_views(v)[i] == v[i]@,
{
}

/// A keyword is looked up as it stands, and where it is not known so, in its normal form.
pub proof fn law_looking_up_row_ids(m: &AliasManager, text: &str, r: Option<i64>)
    requires
        call_ensures(AliasManager::canonical_id, (m, text), r),
    ensures
        m@.canonical_ids.dom().contains(text@) ==> r == Some(m@.canonical_ids[text@]),
        !m@.canonical_ids.dom().contains(text@) && trim(text@).len() > 0
            && m@.canonical_ids.dom().contains(lower(trim(text@))) ==> r == Some(
            m@.canonical_ids[lower(trim(text@))],
        ),
        !m@.canonical_ids.dom().contains(text@) && (trim(text@).len() == 0
            || !m@.canonical_ids.dom().contains(lower(trim(text@)))) ==> r is None,
{
}

} // verus!
