//! Tests of the dictionary of keywords.

use ramaria_memory::keyword::pool::{KeywordPool, KeywordStatus, PoolEntry};
use ramaria_memory::keyword::token::KeywordToken;

fn token(s: &str) -> KeywordToken {
    KeywordToken::new(s).unwrap()
}

fn entry(rowid: i64, text: &str, use_count: i64, status: KeywordStatus) -> PoolEntry {
    PoolEntry {
        rowid,
        token: token(text),
        use_count,
        last_used_at: 0,
        created_at: rowid,
        status,
    }
}

fn sample_pool() -> KeywordPool {
    KeywordPool::from_entries(vec![
        entry(1, "工作压力", 10, KeywordStatus::Canonical),
        entry(
            2,
            "职场焦虑",
            8,
            KeywordStatus::Pending {
                suggested_canonical_id: 1,
            },
        ),
        entry(3, "职业倦怠", 5, KeywordStatus::Alias { canonical_id: 1 }),
    ])
}

#[test]
fn empty_pool() {
    let pool = KeywordPool::new();
    assert!(pool.is_empty());
    assert_eq!(pool.len(), 0);
    assert!(pool.list_canonicals().is_empty());
    assert!(pool.pending_conflicts().is_empty());
}

#[test]
fn upsert_new_inserts_canonical() {
    let mut pool = KeywordPool::new();
    assert!(pool.can_upsert(&token("爬山")));
    pool.upsert(token("爬山"), 1000);
    assert_eq!(pool.len(), 1);
    let e = pool.entry_by_token(&token("爬山")).unwrap();
    assert_eq!(e.use_count, 1);
    assert!(e.status.is_canonical());
}

#[test]
fn upsert_existing_increments_count() {
    let mut pool = sample_pool();
    pool.upsert(token("工作压力"), 5000);
    let e = pool.entry_by_token(&token("工作压力")).unwrap();
    assert_eq!(e.use_count, 11);
    assert_eq!(e.last_used_at, 5000);
}

#[test]
fn resolve_canonical_and_alias() {
    let pool = sample_pool();
    assert_eq!(
        pool.resolve(&token("工作压力")).unwrap().as_str(),
        "工作压力"
    );
    assert_eq!(
        pool.resolve(&token("职场焦虑")).unwrap().as_str(),
        "工作压力"
    );
    assert_eq!(
        pool.resolve(&token("职业倦怠")).unwrap().as_str(),
        "工作压力"
    );
    assert!(pool.resolve(&token("不存在")).is_none());
}

#[test]
fn list_canonicals_sorted_by_use_count() {
    let pool = sample_pool();
    let canonicals = pool.list_canonicals();
    assert_eq!(canonicals.len(), 1);
    assert_eq!(canonicals[0].as_str(), "工作压力");
}

#[test]
fn pending_conflicts_lists_pending_only() {
    let pool = sample_pool();
    let conflicts = pool.pending_conflicts();
    assert_eq!(conflicts.len(), 1);
    assert_eq!(conflicts[0].alias_id, 2);
    assert_eq!(conflicts[0].alias_token.as_str(), "职场焦虑");
    assert_eq!(conflicts[0].canonical_id, 1);
    assert_eq!(conflicts[0].canonical_token.as_str(), "工作压力");
    assert!(conflicts[0].similarity.is_none());
}

#[test]
fn confirm_alias_transitions_pending_to_alias() {
    let mut pool = sample_pool();
    assert!(pool.confirm_alias(2));
    let e = pool.entry_by_id(2).unwrap();
    assert_eq!(e.status, KeywordStatus::Alias { canonical_id: 1 });
    assert!(pool.pending_conflicts().is_empty());
    assert!(!pool.confirm_alias(1));
    assert!(!pool.confirm_alias(99));
}

#[test]
fn reject_alias_promotes_pending_to_canonical() {
    let mut pool = sample_pool();
    assert!(pool.reject_alias(2));
    let e = pool.entry_by_id(2).unwrap();
    assert!(e.status.is_canonical());
    assert_eq!(pool.list_canonicals().len(), 2);
    assert!(!pool.reject_alias(1));
    assert!(!pool.reject_alias(99));
}

#[test]
fn reject_preserves_use_count() {
    let mut pool = sample_pool();
    assert!(pool.reject_alias(2));
    let e = pool.entry_by_id(2).unwrap();
    assert_eq!(e.use_count, 8);
}

#[test]
fn confirming_keeps_the_resolution() {
    let mut pool = sample_pool();
    assert!(pool.confirm_alias(2));
    assert_eq!(
        pool.resolve(&token("职场焦虑")).unwrap().as_str(),
        "工作压力"
    );
}

#[test]
fn rejecting_makes_a_keyword_of_its_own() {
    let mut pool = sample_pool();
    assert!(pool.reject_alias(2));
    assert_eq!(
        pool.resolve(&token("职场焦虑")).unwrap().as_str(),
        "职场焦虑"
    );
    assert!(!pool.confirm_alias(2), "a decision is made once");
}
