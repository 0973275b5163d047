//! The dictionary of keywords, and the states in which its entries stand to each other.

use vstd::prelude::*;

use crate::binary64::Real;
use crate::keyword::token::{token_texts, KeywordToken};
use crate::order::{key_seqs, ordered_by, stable_order};

verus! {

/// How an entry stands to the other entries.
#[derive(Debug, Clone, Copy, PartialEq, Eq, Structural)]
pub enum KeywordStatus {
    /// The entry stands for itself.
    Canonical,
    /// The entry is another word for the entry with this row id.
    Alias { canonical_id: i64 },
    /// The entry may be another word for the entry with this row id; nobody has said yet.
    Pending { suggested_canonical_id: i64 },
}

impl KeywordStatus {
    /// Whether the entry stands for itself.
    pub fn is_canonical(&self) -> (r: bool)
        ensures
            r == (*self is Canonical),
    {
        match self {
            KeywordStatus::Canonical => true,
            _ => false,
        }
    }
}

/// An entry of the dictionary.
#[derive(Debug)]
pub struct PoolEntry {
    pub rowid: i64,
    pub token: KeywordToken,
    pub use_count: i64,
    pub last_used_at: i64,
    pub created_at: i64,
    pub status: KeywordStatus,
}

/// What a `PoolEntry` says.
pub struct EntryView {
    pub rowid: i64,
    pub token: Seq<char>,
    pub use_count: i64,
    pub last_used_at: i64,
    pub created_at: i64,
    pub status: KeywordStatus,
}

impl View for PoolEntry {
    type V = EntryView;

    open spec fn view(&self) -> EntryView {
        EntryView {
            rowid: self.rowid,
            token: self.token@,
            use_count: self.use_count,
            last_used_at: self.last_used_at,
            created_at: self.created_at,
            status: self.status,
        }
    }
}

impl Clone for PoolEntry {
    fn clone(&self) -> (r: Self)
        ensures
            r@ == self@,
    {
        PoolEntry {
            rowid: self.rowid,
            token: self.token.clone(),
            use_count: self.use_count,
            last_used_at: self.last_used_at,
            created_at: self.created_at,
            status: self.status,
        }
    }
}

/// What a sequence of entries says.
pub open spec fn entry_views(v: Seq<PoolEntry>) -> Seq<EntryView> {
    v.map_values(|e: PoolEntry| e@)
}

/// A pending alias, laid out for a decision.
#[derive(Debug)]
pub struct AliasConflict {
    pub alias_id: i64,
    pub alias_token: KeywordToken,
    pub canonical_id: i64,
    pub canonical_token: KeywordToken,
    /// The similarity of the two, where somebody has measured it.
    pub similarity: Option<Real>,
    pub created_at: i64,
}

/// What an `AliasConflict` says.
pub struct ConflictView {
    pub alias_id: i64,
    pub alias_token: Seq<char>,
    pub canonical_id: i64,
    pub canonical_token: Seq<char>,
    pub similarity: Option<Real>,
    pub created_at: i64,
}

impl View for AliasConflict {
    type V = ConflictView;

    open spec fn view(&self) -> ConflictView {
        ConflictView {
            alias_id: self.alias_id,
            alias_token: self.alias_token@,
            canonical_id: self.canonical_id,
            canonical_token: self.canonical_token@,
            similarity: self.similarity,
            created_at: self.created_at,
        }
    }
}

/// The position of the first entry for keyword `t`, or the number of entries.
pub open spec fn token_pos(entries: Seq<EntryView>, t: Seq<char>) -> int
    decreases entries.len(),
{
    if entries.len() == 0 || entries[0].token == t {
        0
    } else {
        1 + token_pos(entries.drop_first(), t)
    }
}

/// The position of the first entry with row id `id`, or the number of entries.
pub open spec fn id_pos(entries: Seq<EntryView>, id: i64) -> int
    decreases entries.len(),
{
    if entries.len() == 0 || entries[0].rowid == id {
        0
    } else {
        1 + id_pos(entries.drop_first(), id)
    }
}

/// Where `token_pos` points.
pub proof fn lemma_token_pos(entries: Seq<EntryView>, t: Seq<char>, i: int)
    requires
        0 <= i <= entries.len(),
        forall|j: int| 0 <= j < i ==> (#[trigger] entries[j]).token != t,
        i < entries.len() ==> entries[i].token == t,
    ensures
        token_pos(entries, t) == i,
    decreases i,
{
    if i > 0 {
        let rest = entries.drop_first();
        assert(entries[0].token != t);
        assert forall|j: int| 0 <= j < i - 1 implies (#[trigger] rest[j]).token != t by {
            assert(rest[j] == entries[j + 1]);
        }
        lemma_token_pos(rest, t, i - 1);
    }
}

/// Where `id_pos` points.
pub proof fn lemma_id_pos(entries: Seq<EntryView>, id: i64, i: int)
    requires
        0 <= i <= entries.len(),
        forall|j: int| 0 <= j < i ==> (#[trigger] entries[j]).rowid != id,
        i < entries.len() ==> entries[i].rowid == id,
    ensures
        id_pos(entries, id) == i,
    decreases i,
{
    if i > 0 {
        let rest = entries.drop_first();
        assert(entries[0].rowid != id);
        assert forall|j: int| 0 <= j < i - 1 implies (#[trigger] rest[j]).rowid != id by {
            assert(rest[j] == entries[j + 1]);
        }
        lemma_id_pos(rest, id, i - 1);
    }
}

/// The largest row id, or zero where there are no entries.
pub open spec fn max_rowid(entries: Seq<EntryView>) -> int
    decreases entries.len(),
{
    if entries.len() == 0 {
        0
    } else if entries.len() == 1 || entries.last().rowid > max_rowid(entries.drop_last()) {
        entries.last().rowid as int
    } else {
        max_rowid(entries.drop_last())
    }
}

/// The dictionary after one more use of keyword `t`.
pub open spec fn upserted(entries: Seq<EntryView>, t: Seq<char>, now_ms: i64) -> Seq<EntryView> {
    let k = token_pos(entries, t);
    if k < entries.len() {
        entries.update(
            k,
            EntryView {
                use_count: (entries[k].use_count + 1) as i64,
                last_used_at: now_ms,
                ..entries[k]
            },
        )
    } else {
        entries.push(
            EntryView {
                rowid: (max_rowid(entries) + 1) as i64,
                token: t,
                use_count: 1,
                last_used_at: now_ms,
                created_at: now_ms,
                status: KeywordStatus::Canonical,
            },
        )
    }
}

/// Whether one more use of keyword `t` can be counted, or a row id be found for it.
pub open spec fn upsert_fits(entries: Seq<EntryView>, t: Seq<char>) -> bool {
    let k = token_pos(entries, t);
    if k < entries.len() {
        entries[k].use_count < i64::MAX
    } else {
        max_rowid(entries) < i64::MAX
    }
}

/// The keyword that keyword `t` stands for: itself, or the one that it is, or may be,
/// another word for.
pub open spec fn resolved(entries: Seq<EntryView>, t: Seq<char>) -> Option<Seq<char>> {
    let k = token_pos(entries, t);
    if k >= entries.len() {
        None
    } else {
        match entries[k].status {
            KeywordStatus::Canonical => Some(entries[k].token),
            KeywordStatus::Alias { canonical_id } => token_of_id(entries, canonical_id),
            KeywordStatus::Pending { suggested_canonical_id } => token_of_id(
                entries,
                suggested_canonical_id,
            ),
        }
    }
}

/// The keyword of the entry with row id `id`.
pub open spec fn token_of_id(entries: Seq<EntryView>, id: i64) -> Option<Seq<char>> {
    if id_pos(entries, id) < entries.len() {
        Some(entries[id_pos(entries, id)].token)
    } else {
        None
    }
}

/// The dictionary with another status for the entry at `k`.
pub open spec fn with_status(entries: Seq<EntryView>, k: int, status: KeywordStatus) -> Seq<
    EntryView,
> {
    entries.update(k, EntryView { status, ..entries[k] })
}

/// The dictionary after a pending alias was confirmed.
pub open spec fn confirmed(entries: Seq<EntryView>, id: i64) -> Seq<EntryView> {
    let k = id_pos(entries, id);
    if k < entries.len() && entries[k].status is Pending {
        with_status(
            entries,
            k,
            KeywordStatus::Alias { canonical_id: entries[k].status->suggested_canonical_id },
        )
    } else {
        entries
    }
}

/// The dictionary after a pending alias was rejected.
pub open spec fn rejected(entries: Seq<EntryView>, id: i64) -> Seq<EntryView> {
    let k = id_pos(entries, id);
    if k < entries.len() && entries[k].status is Pending {
        with_status(entries, k, KeywordStatus::Canonical)
    } else {
        entries
    }
}

/// The keys that put much used entries first, and among those used as much the newer ones.
pub open spec fn use_keys(entries: Seq<EntryView>) -> Seq<Seq<i128>> {
    entries.map_values(
        |e: EntryView| seq![(-e.use_count) as i128, (-e.created_at) as i128],
    )
}

/// The keys that put older entries first.
pub open spec fn age_keys(entries: Seq<EntryView>) -> Seq<Seq<i128>> {
    entries.map_values(|e: EntryView| seq![e.created_at as i128])
}

/// The keywords of the canonical entries, in the order `p`.
pub open spec fn canonicals_in(entries: Seq<EntryView>, p: Seq<usize>) -> Seq<Seq<char>>
    decreases p.len(),
{
    if p.len() == 0 {
        Seq::empty()
    } else {
        let front = canonicals_in(entries, p.drop_last());
        let e = entries[p.last() as int];
        if e.status is Canonical {
            front.push(e.token)
        } else {
            front
        }
    }
}

/// The pending aliases whose suggested entry exists, in the order `p`.
pub open spec fn conflicts_in(entries: Seq<EntryView>, p: Seq<usize>) -> Seq<ConflictView>
    decreases p.len(),
{
    if p.len() == 0 {
        Seq::empty()
    } else {
        let front = conflicts_in(entries, p.drop_last());
        let e = entries[p.last() as int];
        if e.status is Pending && id_pos(entries, e.status->suggested_canonical_id)
            < entries.len() {
            let c = entries[id_pos(entries, e.status->suggested_canonical_id)];
            front.push(
                ConflictView {
                    alias_id: e.rowid,
                    alias_token: e.token,
                    canonical_id: c.rowid,
                    canonical_token: c.token,
                    similarity: None,
                    created_at: e.created_at,
                },
            )
        } else {
            front
        }
    }
}

/// The dictionary.
#[derive(Debug)]
pub struct KeywordPool {
    entries: Vec<PoolEntry>,
}

impl View for KeywordPool {
    type V = Seq<EntryView>;

    closed spec fn view(&self) -> Seq<EntryView> {
        entry_views(self.entries@)
    }
}

impl KeywordPool {
    /// An empty dictionary.
    pub fn new() -> (r: KeywordPool)
        ensures
            r@ == Seq::<EntryView>::empty(),
    {
        let r = KeywordPool { entries: Vec::new() };
        assert(r@ =~= Seq::<EntryView>::empty());
        r
    }

    /// The dictionary of the given entries.
    pub fn from_entries(entries: Vec<PoolEntry>) -> (r: KeywordPool)
        ensures
            r@ == entry_views(entries@),
    {
        KeywordPool { entries }
    }

    /// The number of entries.
    pub fn len(&self) -> (r: usize)
        ensures
            r == self@.len(),
    {
        self.entries.len()
    }

    /// Whether there are no entries.
    pub fn is_empty(&self) -> (r: bool)
        ensures
            r == (self@.len() == 0),
    {
        self.entries.len() == 0
    }

    /// The entries in order.
    pub fn entries(&self) -> (r: &Vec<PoolEntry>)
        ensures
            entry_views(r@) == self@,
    {
        &self.entries
    }

    /// The position of the first entry for a keyword.
    fn find_token(&self, token: &KeywordToken) -> (r: usize)
        ensures
            r == token_pos(self@, token@),
            r <= self@.len(),
    {
        let mut i: usize = 0;
        while i < self.entries.len() && !self.entries[i].token.same(token)
            invariant
                i <= self.entries@.len(),
                forall|j: int| 0 <= j < i ==> (#[trigger] self@[j]).token != token@,
            decreases self.entries@.len() - i,
        {
            i += 1;
        }
        proof {
            lemma_token_pos(self@, token@, i as int);
        }
        i
    }

    /// The position of the first entry with a row id.
    fn find_id(&self, rowid: i64) -> (r: usize)
        ensures
            r == id_pos(self@, rowid),
            r <= self@.len(),
    {
        let mut i: usize = 0;
        while i < self.entries.len() && self.entries[i].rowid != rowid
            invariant
                i <= self.entries@.len(),
                forall|j: int| 0 <= j < i ==> (#[trigger] self@[j]).rowid != rowid,
            decreases self.entries@.len() - i,
        {
            i += 1;
        }
        proof {
            lemma_id_pos(self@, rowid, i as int);
        }
        i
    }

    /// The entry with a row id.
    pub fn entry_by_id(&self, rowid: i64) -> (r: Option<&PoolEntry>)
        ensures
            match r {
                Some(e) => id_pos(self@, rowid) < self@.len() && e@ == self@[id_pos(self@, rowid)],
                None => id_pos(self@, rowid) == self@.len(),
            },
    {
        let k: usize = self.find_id(rowid);
        if k < self.entries.len() {
            Some(&self.entries[k])
        } else {
            None
        }
    }

    /// The entry for a keyword.
    pub fn entry_by_token(&self, token: &KeywordToken) -> (r: Option<&PoolEntry>)
        ensures
            match r {
                Some(e) => token_pos(self@, token@) < self@.len() && e@ == self@[token_pos(
                    self@,
                    token@,
                )],
                None => token_pos(self@, token@) == self@.len(),
            },
    {
        let k: usize = self.find_token(token);
        if k < self.entries.len() {
            Some(&self.entries[k])
        } else {
            None
        }
    }

    /// Whether one more use of a keyword can be counted.
    pub fn can_upsert(&self, token: &KeywordToken) -> (r: bool)
        ensures
            r == upsert_fits(self@, token@),
    {
        let k: usize = self.find_token(token);
        if k < self.entries.len() {
            assert(self@[k as int] == self.entries@[k as int]@);
            self.entries[k].use_count < i64::MAX
        } else {
            self.largest_rowid() < i64::MAX
        }
    }

    /// The largest row id, or zero.
    fn largest_rowid(&self) -> (r: i64)
        ensures
            r == max_rowid(self@),
    {
        let mut m: i64 = 0;
        let mut i: usize = 0;
        while i < self.entries.len()
            invariant
                i <= self.entries@.len(),
                m == max_rowid(self@.take(i as int)),
            decreases self.entries@.len() - i,
        {
            let id: i64 = self.entries[i].rowid;
            assert(self@[i as int] == self.entries@[i as int]@);
            assert(self@.take(i + 1).drop_last() =~= self@.take(i as int));
            if i == 0 || id > m {
                m = id;
            }
            i += 1;
        }
        assert(self@.take(i as int) =~= self@);
        m
    }

    /// Counts one more use of a keyword, and enters it as canonical where it is new.
    pub fn upsert(&mut self, token: KeywordToken, now_ms: i64)
        requires
            upsert_fits(old(self)@, token@),
        ensures
            final(self)@ == upserted(old(self)@, token@, now_ms),
    {
        let k: usize = self.find_token(&token);
        if k < self.entries.len() {
            assert(self@[k as int] == self.entries@[k as int]@);
            let e = &mut self.entries[k];
            e.use_count = e.use_count + 1;
            e.last_used_at = now_ms;
            assert(self@ =~= upserted(old(self)@, token@, now_ms));
        } else {
            let next: i64 = self.largest_rowid() + 1;
            let ghost t = token@;
            self.entries.push(
                PoolEntry {
                    rowid: next,
                    token,
                    use_count: 1,
                    last_used_at: now_ms,
                    created_at: now_ms,
                    status: KeywordStatus::Canonical,
                },
            );
            assert(self@ =~= upserted(old(self)@, t, now_ms));
        }
    }

    /// The keyword that a keyword stands for.
    pub fn resolve(&self, token: &KeywordToken) -> (r: Option<&KeywordToken>)
        ensures
            match r {
                Some(t) => resolved(self@, token@) == Some(t@),
                None => resolved(self@, token@) is None,
            },
    {
        let k: usize = self.find_token(token);
        if k >= self.entries.len() {
            return None;
        }
        assert(self@[k as int] == self.entries@[k as int]@);
        let id: i64 = match self.entries[k].status {
            KeywordStatus::Canonical => return Some(&self.entries[k].token),
            KeywordStatus::Alias { canonical_id } => canonical_id,
            KeywordStatus::Pending { suggested_canonical_id } => suggested_canonical_id,
        };
        let c: usize = self.find_id(id);
        if c < self.entries.len() {
            assert(self@[c as int] == self.entries@[c as int]@);
            Some(&self.entries[c].token)
        } else {
            None
        }
    }

    /// The canonical keywords, the most used first; among those used as much, the newer
    /// first.
    pub fn list_canonicals(&self) -> (r: Vec<KeywordToken>)
        ensures
            exists|p: Seq<usize>| #[trigger]
                ordered_by(p, use_keys(self@)) && token_texts(r@) == canonicals_in(self@, p),
    {
        let n: usize = self.entries.len();
        let mut keys: Vec<Vec<i128>> = Vec::new();
        let mut i: usize = 0;
        assert(key_seqs(keys@) =~= use_keys(self@).take(0));
        while i < n
            invariant
                i <= n,
                n == self.entries@.len(),
                key_seqs(keys@) == use_keys(self@).take(i as int),
            decreases n - i,
        {
            let e = &self.entries[i];
            let mut key: Vec<i128> = Vec::new();
            key.push(-(e.use_count as i128));
            key.push(-(e.created_at as i128));
            assert(self@[i as int] == e@);
            assert(key@ =~= use_keys(self@)[i as int]);
            let ghost before = key_seqs(keys@);
            let ghost kv = key@;
            keys.push(key);
            assert(key_seqs(keys@) =~= before.push(kv));
            i += 1;
            assert(use_keys(self@).take(i as int) =~= use_keys(self@).take(i - 1).push(kv));
        }
        assert(use_keys(self@).take(i as int) =~= use_keys(self@));
        let p = stable_order(&keys);
        let mut out: Vec<KeywordToken> = Vec::new();
        let mut j: usize = 0;
        assert(token_texts(out@) =~= canonicals_in(self@, p@.take(0)));
        while j < p.len()
            invariant
                j <= p@.len(),
                n == self.entries@.len(),
                forall|m: int| 0 <= m < p@.len() ==> 0 <= #[trigger] p@[m] < n,
                token_texts(out@) == canonicals_in(self@, p@.take(j as int)),
            decreases p@.len() - j,
        {
            let e = &self.entries[p[j]];
            assert(self@[p@[j as int] as int] == e@);
            assert(p@.take(j + 1).drop_last() =~= p@.take(j as int));
            assert(p@.take(j + 1).last() == p@[j as int]);
            if e.status.is_canonical() {
                let ghost before = token_texts(out@);
                out.push(e.token.clone());
                assert(token_texts(out@) =~= before.push(e.token@));
            }
            j += 1;
        }
        assert(p@.take(j as int) =~= p@);
        assert(ordered_by(p@, use_keys(self@)));
        out
    }

    /// The pending aliases, the oldest first.
    pub fn pending_conflicts(&self) -> (r: Vec<AliasConflict>)
        ensures
            exists|p: Seq<usize>| #[trigger]
                ordered_by(p, age_keys(self@)) && conflict_views(r@) == conflicts_in(self@, p),
    {
        let n: usize = self.entries.len();
        let mut keys: Vec<Vec<i128>> = Vec::new();
        let mut i: usize = 0;
        assert(key_seqs(keys@) =~= age_keys(self@).take(0));
        while i < n
            invariant
                i <= n,
                n == self.entries@.len(),
                key_seqs(keys@) == age_keys(self@).take(i as int),
            decreases n - i,
        {
            let e = &self.entries[i];
            let mut key: Vec<i128> = Vec::new();
            key.push(e.created_at as i128);
            assert(self@[i as int] == e@);
            assert(key@ =~= age_keys(self@)[i as int]);
            let ghost before = key_seqs(keys@);
            let ghost kv = key@;
            keys.push(key);
            assert(key_seqs(keys@) =~= before.push(kv));
            i += 1;
            assert(age_keys(self@).take(i as int) =~= age_keys(self@).take(i - 1).push(kv));
        }
        assert(age_keys(self@).take(i as int) =~= age_keys(self@));
        let p = stable_order(&keys);
        let mut out: Vec<AliasConflict> = Vec::new();
        let mut j: usize = 0;
        assert(conflict_views(out@) =~= conflicts_in(self@, p@.take(0)));
        while j < p.len()
            invariant
                j <= p@.len(),
                n == self.entries@.len(),
                forall|m: int| 0 <= m < p@.len() ==> 0 <= #[trigger] p@[m] < n,
                conflict_views(out@) == conflicts_in(self@, p@.take(j as int)),
            decreases p@.len() - j,
        {
            let e = &self.entries[p[j]];
            assert(self@[p@[j as int] as int] == e@);
            assert(p@.take(j + 1).drop_last() =~= p@.take(j as int));
            assert(p@.take(j + 1).last() == p@[j as int]);
            if let KeywordStatus::Pending { suggested_canonical_id } = e.status {
                let c: usize = self.find_id(suggested_canonical_id);
                if c < n {
                    assert(self@[c as int] == self.entries@[c as int]@);
                    let ghost before = conflict_views(out@);
                    let conflict = AliasConflict {
                        alias_id: e.rowid,
                        alias_token: e.token.clone(),
                        canonical_id: self.entries[c].rowid,
                        canonical_token: self.entries[c].token.clone(),
                        similarity: None,
                        created_at: e.created_at,
                    };
                    let ghost cv = conflict@;
                    out.push(conflict);
                    assert(conflict_views(out@) =~= before.push(cv));
                }
            }
            j += 1;
        }
        assert(p@.take(j as int) =~= p@);
        assert(ordered_by(p@, age_keys(self@)));
        out
    }

    /// Confirms a pending alias; false where there is none with this row id.
    pub fn confirm_alias(&mut self, alias_id: i64) -> (r: bool)
        ensures
            final(self)@ == confirmed(old(self)@, alias_id),
            r == (id_pos(old(self)@, alias_id) < old(self)@.len() && old(self)@[id_pos(
                old(self)@,
                alias_id,
            )].status is Pending),
    {
        let k: usize = self.find_id(alias_id);
        if k >= self.entries.len() {
            return false;
        }
        assert(self@[k as int] == self.entries@[k as int]@);
        match self.entries[k].status {
            KeywordStatus::Pending { suggested_canonical_id } => {
                let e = &mut self.entries[k];
                e.status = KeywordStatus::Alias { canonical_id: suggested_canonical_id };
                assert(self@ =~= confirmed(old(self)@, alias_id));
                true
            },
            _ => false,
        }
    }

    /// Rejects a pending alias, which then stands for itself; false where there is none
    /// with this row id.
    pub fn reject_alias(&mut self, alias_id: i64) -> (r: bool)
        ensures
            final(self)@ == rejected(old(self)@, alias_id),
            r == (id_pos(old(self)@, alias_id) < old(self)@.len() && old(self)@[id_pos(
                old(self)@,
                alias_id,
            )].status is Pending),
    {
        let k: usize = self.find_id(alias_id);
        if k >= self.entries.len() {
            return false;
        }
        assert(self@[k as int] == self.entries@[k as int]@);
        match self.entries[k].status {
            KeywordStatus::Pending { .. } => {
                let e = &mut self.entries[k];
                e.status = KeywordStatus::Canonical;
                assert(self@ =~= rejected(old(self)@, alias_id));
                true
            },
            _ => false,
        }
    }
}

impl Clone for AliasConflict {
    fn clone(&self) -> (r: Self)
        ensures
            r@ == self@,
    {
        AliasConflict {
            alias_id: self.alias_id,
            alias_token: self.alias_token.clone(),
            canonical_id: self.canonical_id,
            canonical_token: self.canonical_token.clone(),
            similarity: self.similarity,
            created_at: self.created_at,
        }
    }
}

/// What a sequence of conflicts says.
pub open spec fn conflict_views(v: Seq<AliasConflict>) -> Seq<ConflictView> {
    v.map_values(|c: AliasConflict| c@)
}

/// Two dictionaries with the same keywords and row ids look up the same positions.
proof fn lemma_same_positions(a: Seq<EntryView>, b: Seq<EntryView>, t: Seq<char>, id: i64)
    requires
        a.len() == b.len(),
        forall|i: int|
            0 <= i < a.len() ==> (#[trigger] a[i]).token == b[i].token && a[i].rowid == b[i].rowid,
    ensures
        token_pos(a, t) == token_pos(b, t),
        id_pos(a, id) == id_pos(b, id),
        0 <= token_pos(a, t) <= a.len(),
        0 <= id_pos(a, id) <= a.len(),
    decreases a.len(),
{
    if a.len() > 0 {
        let x = a.drop_first();
        let y = b.drop_first();
        assert(a[0].token == b[0].token);
        assert forall|i: int| 0 <= i < x.len() implies (#[trigger] x[i]).token == y[i].token
            && x[i].rowid == y[i].rowid by {
            assert(x[i] == a[i + 1] && y[i] == b[i + 1]);
        }
        lemma_same_positions(x, y, t, id);
    }
}

/// A pending alias already resolves to the suggested keyword: confirming it does not change
/// what any keyword stands for.
pub proof fn law_confirm_keeps_resolution(entries: Seq<EntryView>, id: i64, t: Seq<char>)
    ensures
        resolved(confirmed(entries, id), t) == resolved(entries, t),
{
    let after = confirmed(entries, id);
    lemma_same_positions(entries, entries, t, id);
    lemma_same_positions(entries, after, t, id);
    let k = token_pos(entries, t);
    if k < entries.len() {
        if let KeywordStatus::Alias { canonical_id } = entries[k].status {
            lemma_same_positions(entries, after, t, canonical_id);
        }
        if let KeywordStatus::Pending { suggested_canonical_id } = entries[k].status {
            lemma_same_positions(entries, after, t, suggested_canonical_id);
        }
    }
}

/// A rejected alias stands for itself, keeps its uses, and is pending no more.
pub proof fn law_reject_promotes(entries: Seq<EntryView>, id: i64)
    requires
        id_pos(entries, id) < entries.len(),
        entries[id_pos(entries, id)].status is Pending,
    ensures
        rejected(entries, id)[id_pos(entries, id)] == (EntryView {
            status: KeywordStatus::Canonical,
            ..entries[id_pos(entries, id)]
        }),
        rejected(rejected(entries, id), id) == rejected(entries, id),
        confirmed(rejected(entries, id), id) == rejected(entries, id),
        token_pos(entries, entries[id_pos(entries, id)].token) == id_pos(entries, id) ==> resolved(
            rejected(entries, id),
            entries[id_pos(entries, id)].token,
        ) == Some(entries[id_pos(entries, id)].token),
{
    let after = rejected(entries, id);
    let k = id_pos(entries, id);
    lemma_same_positions(entries, entries, entries[k].token, id);
    lemma_same_positions(entries, after, entries[k].token, id);
}

/// A decision is made once: after it, confirming or rejecting the same alias changes nothing.
pub proof fn law_decided_once(entries: Seq<EntryView>, id: i64)
    ensures
        confirmed(confirmed(entries, id), id) == confirmed(entries, id),
        rejected(confirmed(entries, id), id) == confirmed(entries, id),
        confirmed(rejected(entries, id), id) == rejected(entries, id),
        rejected(rejected(entries, id), id) == rejected(entries, id),
{
    let c = confirmed(entries, id);
    let r = rejected(entries, id);
    lemma_same_positions(entries, entries, Seq::empty(), id);
    lemma_same_positions(entries, c, Seq::empty(), id);
    lemma_same_positions(entries, r, Seq::empty(), id);
}

/// Counting a use of a known keyword does not change what any keyword stands for.
pub proof fn law_upsert_keeps_resolution(
    entries: Seq<EntryView>,
    t: Seq<char>,
    now_ms: i64,
    x: Seq<char>,
)
    requires
        token_pos(entries, t) < entries.len(),
    ensures
        resolved(upserted(entries, t, now_ms), x) == resolved(entries, x),
{
    let after = upserted(entries, t, now_ms);
    lemma_same_positions(entries, entries, t, 0);
    lemma_same_positions(entries, after, x, 0);
    let k = token_pos(entries, x);
    if k < entries.len() {
        if let KeywordStatus::Alias { canonical_id } = entries[k].status {
            lemma_same_positions(entries, after, x, canonical_id);
        }
        if let KeywordStatus::Pending { suggested_canonical_id } = entries[k].status {
            lemma_same_positions(entries, after, x, suggested_canonical_id);
        }
    }
}

/// A keyword that was new stands for itself after its first use.
pub proof fn law_new_keyword_is_canonical(entries: Seq<EntryView>, t: Seq<char>, now_ms: i64)
    requires
        token_pos(entries, t) == entries.len(),
    ensures
        resolved(upserted(entries, t, now_ms), t) == Some(t),
        upserted(entries, t, now_ms).len() == entries.len() + 1,
{
    let after = upserted(entries, t, now_ms);
    lemma_absent_token(entries, t);
    assert forall|j: int| 0 <= j < entries.len() implies (#[trigger] after[j]).token != t by {
        assert(after[j] == entries[j]);
    }
    lemma_token_pos(after, t, entries.len() as int);
}

proof fn lemma_absent_token(entries: Seq<EntryView>, t: Seq<char>)
    requires
        token_pos(entries, t) == entries.len(),
    ensures
        forall|j: int| 0 <= j < entries.len() ==> (#[trigger] entries[j]).token != t,
    decreases entries.len(),
{
    if entries.len() > 0 {
        let rest = entries.drop_first();
        lemma_absent_token(rest, t);
        assert forall|j: int| 0 <= j < entries.len() implies (#[trigger] entries[j]).token != t by {
            if j > 0 {
                assert(rest[j - 1] == entries[j]);
            }
        }
    }
}

impl Clone for KeywordPool {
    fn clone(&self) -> (r: Self)
        ensures
            r@ == self@,
    {
        let n: usize = self.entries.len();
        let mut entries: Vec<PoolEntry> = Vec::new();
        let mut i: usize = 0;
        assert(entry_views(entries@) =~= self@.take(0));
        while i < n
            invariant
                i <= n,
                n == self.entries@.len(),
                entry_views(entries@) == self@.take(i as int),
            decreases n - i,
        {
            let e = &self.entries[i];
            let ghost before = entry_views(entries@);
            let c = e.clone();
            assert(c@ == self@[i as int]);
            entries.push(c);
            assert(entry_views(entries@) =~= before.push(self@[i as int]));
            i += 1;
            assert(self@.take(i as int) =~= self@.take(i - 1).push(self@[i - 1]));
        }
        assert(self@.take(i as int) =~= self@);
        KeywordPool { entries }
    }
}

impl Default for KeywordPool {
    fn default() -> (r: Self)
        ensures
            r@ == Seq::<EntryView>::empty(),
    {
        KeywordPool::new()
    }
}

/// An entry is looked up by the first place where its keyword, or its row id, stands.
pub proof fn law_first_entry_is_found(entries: Seq<EntryView>, t: Seq<char>, id: i64)
    ensures
        0 <= token_pos(entries, t) <= entries.len(),
        token_pos(entries, t) < entries.len() ==> entries[token_pos(entries, t)].token == t,
        forall|j: int| 0 <= j < token_pos(entries, t) ==> (#[trigger] entries[j]).token != t,
        0 <= id_pos(entries, id) <= entries.len(),
        id_pos(entries, id) < entries.len() ==> entries[id_pos(entries, id)].rowid == id,
        forall|j: int| 0 <= j < id_pos(entries, id) ==> (#[trigger] entries[j]).rowid != id,
    decreases entries.len(),
{
    if entries.len() > 0 {
        let rest = entries.drop_first();
        law_first_entry_is_found(rest, t, id);
        assert forall|j: int| 0 < j < entries.len() implies #[trigger] entries[j] == rest[j - 1] by {
        }
    }
}

/// A use of a known keyword is counted at its first entry: one use more, at this time. The rest
/// of that entry and all other entries stay as they are.
pub proof fn law_known_keyword_is_counted(
    entries: Seq<EntryView>,
    t: Seq<char>,
    now_ms: i64,
    k: int,
)
    requires
        0 <= k < entries.len(),
        entries[k].token == t,
        forall|j: int| 0 <= j < k ==> (#[trigger] entries[j]).token != t,
    ensures
        upsert_fits(entries, t) <==> entries[k].use_count < i64::MAX,
        upserted(entries, t, now_ms).len() == entries.len(),
        forall|j: int|
            0 <= j < entries.len() && j != k ==> #[trigger] upserted(entries, t, now_ms)[j]
                == entries[j],
        upsert_fits(entries, t) ==> upserted(entries, t, now_ms)[k].use_count
            == entries[k].use_count + 1,
        upserted(entries, t, now_ms)[k].last_used_at == now_ms,
        upserted(entries, t, now_ms)[k].rowid == entries[k].rowid,
        upserted(entries, t, now_ms)[k].token == t,
        upserted(entries, t, now_ms)[k].created_at == entries[k].created_at,
        upserted(entries, t, now_ms)[k].status == entries[k].status,
{
    lemma_token_pos(entries, t, k);
}

/// A keyword that is not known yet is entered behind the others, canonical, with one use, at
/// this time. Its row id is the next one after all that are taken, and 1 where none is.
pub proof fn law_new_keyword_is_entered(entries: Seq<EntryView>, t: Seq<char>, now_ms: i64)
    requires
        forall|j: int| 0 <= j < entries.len() ==> (#[trigger] entries[j]).token != t,
        upsert_fits(entries, t),
    ensures
        upserted(entries, t, now_ms).len() == entries.len() + 1,
        upserted(entries, t, now_ms).drop_last() == entries,
        upserted(entries, t, now_ms).last().token == t,
        upserted(entries, t, now_ms).last().use_count == 1,
        upserted(entries, t, now_ms).last().last_used_at == now_ms,
        upserted(entries, t, now_ms).last().created_at == now_ms,
        upserted(entries, t, now_ms).last().status == KeywordStatus::Canonical,
        forall|j: int|
            0 <= j < entries.len() ==> (#[trigger] entries[j]).rowid < upserted(
                entries,
                t,
                now_ms,
            ).last().rowid,
        entries.len() == 0 ==> upserted(entries, t, now_ms).last().rowid == 1,
        entries.len() > 0 ==> exists|j: int|
            0 <= j < entries.len() && (#[trigger] entries[j]).rowid + 1 == upserted(
                entries,
                t,
                now_ms,
            ).last().rowid,
{
    lemma_token_pos(entries, t, entries.len() as int);
    law_largest_row_id(entries);
    assert(upserted(entries, t, now_ms).drop_last() =~= entries);
    if entries.len() > 0 {
        let j = choose|j: int|
            0 <= j < entries.len() && (#[trigger] entries[j]).rowid == max_rowid(entries);
        assert(entries[j].rowid + 1 == upserted(entries, t, now_ms).last().rowid);
    }
}

/// No row id is above the largest one, and it is taken; without entries it is 0.
pub proof fn law_largest_row_id(entries: Seq<EntryView>)
    ensures
        forall|j: int| 0 <= j < entries.len() ==> (#[trigger] entries[j]).rowid <= max_rowid(entries),
        entries.len() > 0 ==> exists|j: int|
            0 <= j < entries.len() && (#[trigger] entries[j]).rowid == max_rowid(entries),
        entries.len() == 0 ==> max_rowid(entries) == 0,
        i64::MIN <= max_rowid(entries) <= i64::MAX,
    decreases entries.len(),
{
    if entries.len() > 0 {
        let front = entries.drop_last();
        law_largest_row_id(front);
        assert forall|j: int| 0 <= j < entries.len() implies (#[trigger] entries[j]).rowid
            <= max_rowid(entries) by {
            if j < front.len() {
                assert(front[j] == entries[j]);
            }
        }
        if entries.len() == 1 || entries.last().rowid > max_rowid(front) {
            assert(entries[entries.len() - 1].rowid == max_rowid(entries));
        } else {
            let j = choose|j: int|
                0 <= j < front.len() && (#[trigger] front[j]).rowid == max_rowid(front);
            assert(entries[j].rowid == max_rowid(entries));
        }
    }
}

/// A canonical keyword stands for itself, an alias and a pending one for the keyword with the
/// row id that they name. Unknown keywords, and aliases of unknown ones, stand for nothing.
pub proof fn law_status_tells_what_stands(entries: Seq<EntryView>, t: Seq<char>, k: int)
    requires
        0 <= k <= entries.len(),
        k < entries.len() ==> entries[k].token == t,
        forall|j: int| 0 <= j < k ==> (#[trigger] entries[j]).token != t,
    ensures
        k == entries.len() ==> resolved(entries, t) is None,
        k < entries.len() ==> match entries[k].status {
            KeywordStatus::Canonical => resolved(entries, t) == Some(t),
            KeywordStatus::Alias { canonical_id: id } => {
                &&& forall|c: int|
                    0 <= c < entries.len() && (#[trigger] entries[c]).rowid == id && (forall|j: int|
                        0 <= j < c ==> (#[trigger] entries[j]).rowid != id) ==> resolved(entries, t)
                        == Some(entries[c].token)
                &&& (forall|j: int| 0 <= j < entries.len() ==> (#[trigger] entries[j]).rowid != id)
                    ==> resolved(entries, t) is None
            },
            KeywordStatus::Pending { suggested_canonical_id: id } => {
                &&& forall|c: int|
                    0 <= c < entries.len() && (#[trigger] entries[c]).rowid == id && (forall|j: int|
                        0 <= j < c ==> (#[trigger] entries[j]).rowid != id) ==> resolved(entries, t)
                        == Some(entries[c].token)
                &&& (forall|j: int| 0 <= j < entries.len() ==> (#[trigger] entries[j]).rowid != id)
                    ==> resolved(entries, t) is None
            },
        },
{
    lemma_token_pos(entries, t, k);
    if k < entries.len() && !(entries[k].status is Canonical) {
        let id = match entries[k].status {
            KeywordStatus::Alias { canonical_id } => canonical_id,
            KeywordStatus::Pending { suggested_canonical_id } => suggested_canonical_id,
            KeywordStatus::Canonical => 0,
        };
        law_first_entry_is_found(entries, t, id);
        assert forall|c: int|
            0 <= c < entries.len() && (#[trigger] entries[c]).rowid == id && (forall|j: int|
                0 <= j < c ==> (#[trigger] entries[j]).rowid != id) implies resolved(entries, t)
            == Some(entries[c].token) by {
            lemma_id_pos(entries, id, c);
        }
    }
}

/// A decision on a pending entry changes its status and nothing else: confirmed, it is an alias
/// of the suggested keyword; rejected, it is canonical. On any other entry, and on none, it
/// changes nothing.
pub proof fn law_decisions_change_status(entries: Seq<EntryView>, id: i64, k: int)
    requires
        0 <= k <= entries.len(),
        k < entries.len() ==> entries[k].rowid == id,
        forall|j: int| 0 <= j < k ==> (#[trigger] entries[j]).rowid != id,
    ensures
        k == entries.len() || !(entries[k].status is Pending) ==> confirmed(entries, id) == entries
            && rejected(entries, id) == entries,
        k < entries.len() && entries[k].status is Pending ==> {
            &&& confirmed(entries, id).len() == entries.len()
            &&& rejected(entries, id).len() == entries.len()
            &&& forall|j: int|
                0 <= j < entries.len() && j != k ==> #[trigger] confirmed(entries, id)[j]
                    == entries[j]
            &&& forall|j: int|
                0 <= j < entries.len() && j != k ==> #[trigger] rejected(entries, id)[j]
                    == entries[j]
            &&& confirmed(entries, id)[k] == (EntryView {
                rowid: id,
                token: entries[k].token,
                use_count: entries[k].use_count,
                last_used_at: entries[k].last_used_at,
                created_at: entries[k].created_at,
                status: KeywordStatus::Alias {
                    canonical_id: entries[k].status->suggested_canonical_id,
                },
            })
            &&& rejected(entries, id)[k] == (EntryView {
                rowid: id,
                token: entries[k].token,
                use_count: entries[k].use_count,
                last_used_at: entries[k].last_used_at,
                created_at: entries[k].created_at,
                status: KeywordStatus::Canonical,
            })
        },
{
    lemma_id_pos(entries, id, k);
}

/// The list of canonical keywords holds every canonical entry once and no other. What was used
/// more comes first, and of entries used as much the newer one.
pub proof fn law_most_used_come_first(entries: Seq<EntryView>, p: Seq<usize>)
    requires
        ordered_by(p, use_keys(entries)),
    ensures
        canonicals_in(entries, p) == p.filter(
            |x: usize| entries[x as int].status == KeywordStatus::Canonical,
        ).map_values(|x: usize| entries[x as int].token),
        p.len() == entries.len(),
        p.no_duplicates(),
        forall|a: int| 0 <= a < p.len() ==> 0 <= #[trigger] p[a] < entries.len(),
        forall|a: int, b: int|
            0 <= a < b < p.len() ==> {
                let x = entries[#[trigger] p[a] as int];
                let y = entries[#[trigger] p[b] as int];
                ||| x.use_count > y.use_count
                ||| x.use_count == y.use_count && x.created_at >= y.created_at
            },
{
    lemma_canonicals(entries, p);
    let keys = use_keys(entries);
    crate::order::law_order_lists_all(p, keys);
    assert forall|a: int, b: int| 0 <= a < b < p.len() implies {
        let x = entries[#[trigger] p[a] as int];
        let y = entries[#[trigger] p[b] as int];
        ||| x.use_count > y.use_count
        ||| x.use_count == y.use_count && x.created_at >= y.created_at
    } by {
        let x = entries[p[a] as int];
        let y = entries[p[b] as int];
        let s = keys[p[a] as int];
        let t = keys[p[b] as int];
        assert(!crate::order::key_lt(t, s));
        assert(s[0] == -x.use_count && t[0] == -y.use_count);
        assert(s.drop_first()[0] == -x.created_at && t.drop_first()[0] == -y.created_at);
        reveal_with_fuel(crate::order::key_lt, 2);
    }
}

proof fn lemma_canonicals(entries: Seq<EntryView>, p: Seq<usize>)
    ensures
        canonicals_in(entries, p) == p.filter(
            |x: usize| entries[x as int].status == KeywordStatus::Canonical,
        ).map_values(|x: usize| entries[x as int].token),
    decreases p.len(),
{
    reveal(Seq::filter);
    let keep = |x: usize| entries[x as int].status == KeywordStatus::Canonical;
    let f = |x: usize| entries[x as int].token;
    if p.len() > 0 {
        lemma_canonicals(entries, p.drop_last());
        let front = p.drop_last().filter(keep);
        if keep(p.last()) {
            assert(front.push(p.last()).map_values(f) =~= front.map_values(f).push(f(p.last())));
        }
    } else {
        assert(p.filter(keep).map_values(f) =~= Seq::<Seq<char>>::empty());
    }
}

/// The list of conflicts holds every pending entry whose suggested keyword is known, once, and
/// no other. It tells the two keywords and their row ids. The oldest comes first, and of entries
/// of the same time the one that stands first.
pub proof fn law_oldest_conflicts_come_first(entries: Seq<EntryView>, p: Seq<usize>)
    requires
        ordered_by(p, age_keys(entries)),
    ensures
        conflicts_in(entries, p) == p.filter(
            |x: usize|
                entries[x as int].status is Pending && token_of_id(
                    entries,
                    entries[x as int].status->suggested_canonical_id,
                ) is Some,
        ).map_values(
            |x: usize|
                ConflictView {
                    alias_id: entries[x as int].rowid,
                    alias_token: entries[x as int].token,
                    canonical_id: entries[x as int].status->suggested_canonical_id,
                    canonical_token: token_of_id(
                        entries,
                        entries[x as int].status->suggested_canonical_id,
                    )->0,
                    similarity: None,
                    created_at: entries[x as int].created_at,
                },
        ),
        p.len() == entries.len(),
        p.no_duplicates(),
        forall|a: int| 0 <= a < p.len() ==> 0 <= #[trigger] p[a] < entries.len(),
        forall|a: int, b: int|
            0 <= a < b < p.len() ==> {
                let x = entries[#[trigger] p[a] as int];
                let y = entries[#[trigger] p[b] as int];
                ||| x.created_at < y.created_at
                ||| x.created_at == y.created_at && p[a] < p[b]
            },
{
    lemma_conflicts(entries, p);
    let keys = age_keys(entries);
    crate::order::law_order_lists_all(p, keys);
    assert forall|a: int, b: int| 0 <= a < b < p.len() implies {
        let x = entries[#[trigger] p[a] as int];
        let y = entries[#[trigger] p[b] as int];
        ||| x.created_at < y.created_at
        ||| x.created_at == y.created_at && p[a] < p[b]
    } by {
        let x = entries[p[a] as int];
        let y = entries[p[b] as int];
        let s = keys[p[a] as int];
        let t = keys[p[b] as int];
        assert(!crate::order::key_lt(t, s));
        assert(s[0] == x.created_at && t[0] == y.created_at);
        if x.created_at == y.created_at {
            assert(s =~= t);
        }
    }
}

proof fn lemma_conflicts(entries: Seq<EntryView>, p: Seq<usize>)
    ensures
        conflicts_in(entries, p) == p.filter(
            |x: usize|
                entries[x as int].status is Pending && token_of_id(
                    entries,
                    entries[x as int].status->suggested_canonical_id,
                ) is Some,
        ).map_values(
            |x: usize|
                ConflictView {
                    alias_id: entries[x as int].rowid,
                    alias_token: entries[x as int].token,
                    canonical_id: entries[x as int].status->suggested_canonical_id,
                    canonical_token: token_of_id(
                        entries,
                        entries[x as int].status->suggested_canonical_id,
                    )->0,
                    similarity: None,
                    created_at: entries[x as int].created_at,
                },
        ),
    decreases p.len(),
{
    reveal(Seq::filter);
    let keep = |x: usize|
        entries[x as int].status is Pending && token_of_id(
            entries,
            entries[x as int].status->suggested_canonical_id,
        ) is Some;
    let f = |x: usize|
        ConflictView {
            alias_id: entries[x as int].rowid,
            alias_token: entries[x as int].token,
            canonical_id: entries[x as int].status->suggested_canonical_id,
            canonical_token: token_of_id(
                entries,
                entries[x as int].status->suggested_canonical_id,
            )->0,
            similarity: None,
            created_at: entries[x as int].created_at,
        };
    if p.len() > 0 {
        lemma_conflicts(entries, p.drop_last());
        let front = p.drop_last().filter(keep);
        if keep(p.last()) {
            let e = entries[p.last() as int];
            law_first_entry_is_found(entries, e.token, e.status->suggested_canonical_id);
            assert(front.push(p.last()).map_values(f) =~= front.map_values(f).push(f(p.last())));
        }
    } else {
        assert(p.filter(keep).map_values(f) =~= Seq::<ConflictView>::empty());
    }
}

/// What an entry and a conflict say is what stands in their fields.
pub proof fn law_entries_are_seen(e: PoolEntry, c: AliasConflict)
    ensures
        e@.rowid == e.rowid && e@.token == e.token@ && e@.use_count == e.use_count,
        e@.last_used_at == e.last_used_at && e@.created_at == e.created_at,
        e@.status == e.status,
        c@.alias_id == c.alias_id && c@.alias_token == c.alias_token@,
        c@.canonical_id == c.canonical_id && c@.canonical_token == c.canonical_token@,
        c@.similarity == c.similarity && c@.created_at == c.created_at,
{
}

/// What lists of entries and of conflicts say is what each of them says, in order.
pub proof fn law_lists_of_entries(v: Seq<PoolEntry>, w: Seq<AliasConflict>)
    ensures
        entry_views(v).len() == v.len() && conflict_views(w).len() == w.len(),
        forall|i: int| 0 <= i < v.len() ==> #[trigger] entry_views(v)[i] == v[i]@,
        forall|i: int| 0 <= i < w.len() ==> #[trigger] conflict_views(w)[i] == w[i]@,
{
}

} // verus!
