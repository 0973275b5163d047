//! Grouping events by category and by motive.

use vstd::multiset::Multiset;
use vstd::prelude::*;

use crate::binary64::Real;
use crate::inference::stats::config::{event_views, EventEnrichment, EventView, MemoryEvent};
use crate::keyword::token::{distinct, lemma_distinct};
use crate::text::{blank, char_seqs, chars_of, copy_text, is_space, law_trim_takes_spaces_off,
    lemma_lex_irreflexive, lemma_lex_total, lemma_lex_transitive, lex_lt, opt_text,
    same_text, split, split_on, string_of, text_before, texts, trim, trim_chars};

verus! {

/// What stands between commas, trimmed, without what is blank.
pub open spec fn tag_list(pieces: Seq<Seq<char>>) -> Seq<Seq<char>>
    decreases pieces.len(),
{
    if pieces.len() == 0 {
        Seq::empty()
    } else {
        let front = tag_list(pieces.drop_last());
        if blank(pieces.last()) {
            front
        } else {
            front.push(trim(pieces.last()))
        }
    }
}

/// The tags of a field: what stands between commas.
pub open spec fn tags(field: Option<Seq<char>>) -> Seq<Seq<char>> {
    match field {
        Some(s) => tag_list(split(s, |c: char| c == ',')),
        None => Seq::empty(),
    }
}

/// The tags of a field.
pub fn field_tags(field: &Option<String>) -> (r: Vec<String>)
    ensures
        texts(r@) == tags(opt_text(*field)),
{
    let mut out: Vec<String> = Vec::new();
    assert(texts(out@) =~= Seq::<Seq<char>>::empty());
    let s = match field {
        Some(s) => s,
        None => return out,
    };
    let v = chars_of(s.as_str());
    let pieces = split_on(&v, ',', ',');
    assert((|c: char| c == ',' || c == ',') =~= (|c: char| c == ','));
    let ghost all = char_seqs(pieces@);
    let mut i: usize = 0;
    assert(texts(out@) =~= tag_list(all.take(0)));
    while i < pieces.len()
        invariant
            i <= pieces@.len(),
            all == char_seqs(pieces@),
            texts(out@) == tag_list(all.take(i as int)),
        decreases pieces@.len() - i,
    {
        assert(all.take(i + 1).drop_last() =~= all.take(i as int));
        assert(all.take(i + 1).last() == pieces@[i as int]@);
        let t = trim_chars(&pieces[i]);
        if t.len() > 0 {
            let ghost before = texts(out@);
            out.push(string_of(&t));
            assert(texts(out@) =~= before.push(t@));
        }
        i += 1;
    }
    assert(all.take(i as int) =~= all);
    out
}

/// The category of an event: its first keyword, if it has one.
pub open spec fn category_of(e: EventView) -> Seq<char> {
    if tags(e.keywords).len() > 0 {
        tags(e.keywords)[0]
    } else {
        "未分类"@
    }
}

/// The category of an event: its first keyword, if it has one.
pub fn extract_primary_category(event: &MemoryEvent) -> (r: String)
    ensures
        r@ == category_of(event@),
{
    let list = field_tags(&event.keywords);
    if list.len() > 0 {
        assert(texts(list@)[0] == list@[0]@);
        copy_text(list[0].as_str())
    } else {
        copy_text("未分类")
    }
}

/// The motives of an event.
pub fn extract_motive_tags(event: &MemoryEvent) -> (r: Vec<String>)
    ensures
        texts(r@) == tags(event@.motives),
{
    field_tags(&event.motives)
}

/// The numbers that go with a name, in order.
pub open spec fn members(pairs: Seq<(Seq<char>, int)>, name: Seq<char>) -> Seq<int>
    decreases pairs.len(),
{
    if pairs.len() == 0 {
        Seq::empty()
    } else {
        let front = members(pairs.drop_last(), name);
        if pairs.last().0 == name {
            front.push(pairs.last().1)
        } else {
            front
        }
    }
}

/// Whether `groups` sorts `pairs` by name: the names come in the order of texts, each of them
/// once and with all that goes with it, and no name is missing.
pub open spec fn grouped(pairs: Seq<(Seq<char>, int)>, groups: Seq<(Seq<char>, Seq<int>)>) -> bool {
    &&& forall|a: int, b: int|
        0 <= a < b < groups.len() ==> lex_lt((#[trigger] groups[a]).0, (#[trigger] groups[b]).0)
    &&& forall|a: int|
        0 <= a < groups.len() ==> (#[trigger] groups[a]).1 == members(pairs, groups[a].0)
            && groups[a].1.len() > 0
    &&& forall|k: int| 0 <= k < pairs.len() ==> named(groups, (#[trigger] pairs[k]).0)
}

/// Whether some group has the name.
pub open spec fn named(groups: Seq<(Seq<char>, Seq<int>)>, name: Seq<char>) -> bool {
    exists|a: int| 0 <= a < groups.len() && (#[trigger] groups[a]).0 == name
}

/// What named groups of numbers say.
pub open spec fn group_views(v: Seq<(String, Vec<usize>)>) -> Seq<(Seq<char>, Seq<int>)> {
    v.map_values(
        |g: (String, Vec<usize>)| (g.0@, g.1@.map_values(|k: usize| k as int)),
    )
}

/// What named numbers say.
pub open spec fn pair_views(v: Seq<(String, usize)>) -> Seq<(Seq<char>, int)> {
    v.map_values(|p: (String, usize)| (p.0@, p.1 as int))
}

/// What goes with a name comes from the pairs with that name.
pub proof fn lemma_members(pairs: Seq<(Seq<char>, int)>, name: Seq<char>)
    ensures
        forall|m: int|
            0 <= m < members(pairs, name).len() ==> exists|k: int|
                0 <= k < pairs.len() && #[trigger] pairs[k] == (
                    name,
                    #[trigger] members(pairs, name)[m],
                ),
        forall|k: int|
            0 <= k < pairs.len() && (#[trigger] pairs[k]).0 == name ==> members(
                pairs,
                name,
            ).contains(pairs[k].1),
    decreases pairs.len(),
{
    if pairs.len() > 0 {
        let front = pairs.drop_last();
        lemma_members(front, name);
        assert forall|m: int| 0 <= m < members(pairs, name).len() implies exists|k: int|
            0 <= k < pairs.len() && #[trigger] pairs[k] == (
                name,
                #[trigger] members(pairs, name)[m],
            ) by {
            if m < members(front, name).len() {
                let v = members(front, name)[m];
                let k = choose|k: int| 0 <= k < front.len() && #[trigger] front[k] == (name, v);
                assert(pairs[k] == (name, v));
            } else {
                assert(pairs[pairs.len() - 1] == (name, members(pairs, name)[m]));
            }
        }
        assert forall|k: int| 0 <= k < pairs.len() && (#[trigger] pairs[k]).0 == name implies members(
            pairs,
            name,
        ).contains(pairs[k].1) by {
            let all = members(pairs, name);
            if k < front.len() {
                assert(front[k] == pairs[k]);
                let some = members(front, name);
                assert(some.contains(pairs[k].1));
                let m = choose|m: int| 0 <= m < some.len() && some[m] == pairs[k].1;
                assert(all[m] == pairs[k].1);
            } else {
                assert(all[all.len() - 1] == pairs[k].1);
            }
        }
    }
}

/// Adds one more pair to groups.
fn add_to_groups(
    groups: &mut Vec<(String, Vec<usize>)>,
    name: String,
    number: usize,
    Ghost(pairs): Ghost<Seq<(Seq<char>, int)>>,
)
    requires
        grouped(pairs, group_views(old(groups)@)),
    ensures
        grouped(pairs.push((name@, number as int)), group_views(final(groups)@)),
{
    let ghost before = group_views(groups@);
    let ghost more = pairs.push((name@, number as int));
    let ghost nv = name@;
    proof {
        assert(more.drop_last() =~= pairs);
        assert forall|other: Seq<char>| other != nv implies #[trigger] members(more, other)
            == members(pairs, other) by {}
        assert(members(more, nv) == members(pairs, nv).push(number as int));
    }
    let mut i: usize = 0;
    while i < groups.len() && text_before(groups[i].0.as_str(), name.as_str())
        invariant
            i <= groups@.len(),
            nv == name@,
            before == group_views(groups@),
            forall|a: int| 0 <= a < i ==> lex_lt((#[trigger] before[a]).0, nv),
        decreases groups@.len() - i,
    {
        assert(before[i as int].0 == groups@[i as int].0@);
        i += 1;
    }
    if i < groups.len() && same_text(groups[i].0.as_str(), name.as_str()) {
        assert(before[i as int].0 == nv);
        let (kept, mut list) = groups.remove(i);
        let ghost lv = list@;
        list.push(number);
        groups.insert(i, (kept, list));
        proof {
            let after = group_views(groups@);
            assert(list@.map_values(|k: usize| k as int) =~= lv.map_values(
                |k: usize| k as int,
            ).push(number as int));
            assert forall|a: int| 0 <= a < after.len() implies #[trigger] after[a] == (if a == i {
                (nv, before[a].1.push(number as int))
            } else {
                before[a]
            }) by {}
            assert forall|a: int| 0 <= a < after.len() implies (#[trigger] after[a]).1 == members(
                more,
                after[a].0,
            ) && after[a].1.len() > 0 by {
                assert(before[a].1 == members(pairs, before[a].0));
                if a != i {
                    if a < i {
                        assert(lex_lt(before[a].0, before[i as int].0));
                    } else {
                        assert(lex_lt(before[i as int].0, before[a].0));
                    }
                    lemma_lex_irreflexive(nv);
                }
            }
            assert forall|k: int| 0 <= k < more.len() implies named(
                after,
                (#[trigger] more[k]).0,
            ) by {
                if k < pairs.len() {
                    assert(named(before, pairs[k].0));
                    let a = choose|a: int|
                        0 <= a < before.len() && (#[trigger] before[a]).0 == pairs[k].0;
                    assert(after[a].0 == pairs[k].0);
                } else {
                    assert(after[i as int].0 == nv);
                }
            }
            assert forall|a: int, b: int| 0 <= a < b < after.len() implies lex_lt(
                (#[trigger] after[a]).0,
                (#[trigger] after[b]).0,
            ) by {
                assert(lex_lt(before[a].0, before[b].0));
            }
        }
    } else {
        proof {
            if i < before.len() {
                assert(before[i as int].0 == groups@[i as int].0@);
                lemma_lex_total(before[i as int].0, nv);
                assert(lex_lt(nv, before[i as int].0));
            }
            assert(!named(before, nv)) by {
                if named(before, nv) {
                    let a = choose|a: int| 0 <= a < before.len() && (#[trigger] before[a]).0 == nv;
                    lemma_lex_irreflexive(nv);
                    if a > i {
                        assert(lex_lt(before[i as int].0, before[a].0));
                        lemma_lex_transitive(nv, before[i as int].0, nv);
                    }
                }
            }
            assert(members(pairs, nv).len() == 0) by {
                lemma_members(pairs, nv);
                if members(pairs, nv).len() > 0 {
                    let k = choose|k: int|
                        0 <= k < pairs.len() && #[trigger] pairs[k] == (nv, members(pairs, nv)[0]);
                    assert(named(before, pairs[k].0));
                }
            }
        }
        let mut list: Vec<usize> = Vec::new();
        list.push(number);
        groups.insert(i, (name, list));
        proof {
            let after = group_views(groups@);
            assert(list@.map_values(|k: usize| k as int) =~= members(more, nv));
            assert forall|a: int| 0 <= a < after.len() implies #[trigger] after[a] == (if a < i {
                before[a]
            } else if a == i {
                (nv, members(more, nv))
            } else {
                before[a - 1]
            }) by {}
            assert forall|a: int, b: int| 0 <= a < b < after.len() implies lex_lt(
                (#[trigger] after[a]).0,
                (#[trigger] after[b]).0,
            ) by {
                if b < i {
                    assert(lex_lt(before[a].0, before[b].0));
                } else if b == i {
                } else if a == i {
                    if b - 1 > i {
                        assert(lex_lt(before[i as int].0, before[b - 1].0));
                        lemma_lex_transitive(nv, before[i as int].0, before[b - 1].0);
                    }
                } else if a < i {
                    assert(lex_lt(before[a].0, before[b - 1].0));
                } else {
                    assert(lex_lt(before[a - 1].0, before[b - 1].0));
                }
            }
            assert forall|a: int| 0 <= a < after.len() implies (#[trigger] after[a]).1 == members(
                more,
                after[a].0,
            ) && after[a].1.len() > 0 by {
                if a != i {
                    let a0 = if a < i {
                        a
                    } else {
                        a - 1
                    };
                    assert(before[a0].1 == members(pairs, before[a0].0));
                    assert(before[a0].0 != nv);
                }
            }
            assert forall|k: int| 0 <= k < more.len() implies named(
                after,
                (#[trigger] more[k]).0,
            ) by {
                if k < pairs.len() {
                    assert(named(before, pairs[k].0));
                    let a = choose|a: int|
                        0 <= a < before.len() && (#[trigger] before[a]).0 == pairs[k].0;
                    let a1 = if a < i {
                        a
                    } else {
                        a + 1
                    };
                    assert(after[a1].0 == pairs[k].0);
                } else {
                    assert(after[i as int].0 == nv);
                }
            }
        }
    }
}

/// Named numbers, sorted by name.
pub fn group_pairs(pairs: Vec<(String, usize)>) -> (r: Vec<(String, Vec<usize>)>)
    ensures
        grouped(pair_views(pairs@), group_views(r@)),
{
    let ghost all = pair_views(pairs@);
    let mut groups: Vec<(String, Vec<usize>)> = Vec::new();
    let mut i: usize = 0;
    while i < pairs.len()
        invariant
            i <= pairs@.len(),
            all == pair_views(pairs@),
            grouped(all.take(i as int), group_views(groups@)),
        decreases pairs@.len() - i,
    {
        add_to_groups(
            &mut groups,
            copy_text(pairs[i].0.as_str()),
            pairs[i].1,
            Ghost(all.take(i as int)),
        );
        assert(all.take(i as int).push(all[i as int]) =~= all.take(i + 1));
        i += 1;
    }
    assert(all.take(i as int) =~= all);
    groups
}

/// Whether a list holds a text.
pub fn has_text(v: &Vec<String>, s: &str) -> (r: bool)
    ensures
        r == texts(v@).contains(s@),
{
    let mut i: usize = 0;
    while i < v.len()
        invariant
            i <= v@.len(),
            forall|j: int| 0 <= j < i ==> (#[trigger] texts(v@)[j]) != s@,
        decreases v@.len() - i,
    {
        assert(texts(v@)[i as int] == v@[i as int]@);
        if same_text(v[i].as_str(), s) {
            return true;
        }
        i += 1;
    }
    false
}

/// The different texts of a list.
pub fn distinct_texts(v: &Vec<String>) -> (r: Vec<String>)
    ensures
        texts(r@) == distinct(texts(v@)),
        r@.len() <= v@.len(),
{
    let ghost all = texts(v@);
    let mut out: Vec<String> = Vec::new();
    let mut i: usize = 0;
    assert(texts(out@) =~= distinct(all.take(0)));
    while i < v.len()
        invariant
            i <= v@.len(),
            all == texts(v@),
            texts(out@) == distinct(all.take(i as int)),
            out@.len() <= i,
        decreases v@.len() - i,
    {
        assert(all.take(i + 1).drop_last() =~= all.take(i as int));
        assert(all.take(i + 1).last() == v@[i as int]@);
        if !has_text(&out, v[i].as_str()) {
            let ghost before = texts(out@);
            out.push(copy_text(v[i].as_str()));
            assert(texts(out@) =~= before.push(v@[i as int]@));
        }
        i += 1;
    }
    assert(all.take(i as int) =~= all);
    out
}

/// The category of each event, with the number of the event.
pub open spec fn category_pairs(events: Seq<EventView>) -> Seq<(Seq<char>, int)> {
    Seq::new(events.len(), |i: int| (category_of(events[i]), i))
}

/// The different motives of each event, with the number of the event.
pub open spec fn motive_pairs(events: Seq<EventView>) -> Seq<(Seq<char>, int)>
    decreases events.len(),
{
    if events.len() == 0 {
        Seq::empty()
    } else {
        motive_pairs(events.drop_last()) + distinct(tags(events.last().motives)).map_values(
            |t: Seq<char>| (t, events.len() - 1),
        )
    }
}

/// The numbers of the events of each category.
pub fn category_groups(events: &Vec<MemoryEvent>) -> (r: Vec<(String, Vec<usize>)>)
    ensures
        grouped(category_pairs(event_views(events@)), group_views(r@)),
{
    let ghost all = category_pairs(event_views(events@));
    let mut pairs: Vec<(String, usize)> = Vec::new();
    let mut i: usize = 0;
    assert(pair_views(pairs@) =~= all.take(0));
    while i < events.len()
        invariant
            i <= events@.len(),
            all == category_pairs(event_views(events@)),
            pair_views(pairs@) == all.take(i as int),
        decreases events@.len() - i,
    {
        let ghost before = pair_views(pairs@);
        let name = extract_primary_category(&events[i]);
        let ghost nv = name@;
        pairs.push((name, i));
        assert(pair_views(pairs@) =~= before.push((nv, i as int)));
        assert(all.take(i + 1) =~= all.take(i as int).push(all[i as int]));
        i += 1;
    }
    assert(all.take(i as int) =~= all);
    group_pairs(pairs)
}

/// The numbers of the events of each motive. An event stands under each of its motives, once.
pub fn motive_groups(events: &Vec<MemoryEvent>) -> (r: Vec<(String, Vec<usize>)>)
    ensures
        grouped(motive_pairs(event_views(events@)), group_views(r@)),
{
    let ghost ev = event_views(events@);
    let mut pairs: Vec<(String, usize)> = Vec::new();
    let mut i: usize = 0;
    assert(pair_views(pairs@) =~= motive_pairs(ev.take(0)));
    while i < events.len()
        invariant
            i <= events@.len(),
            ev == event_views(events@),
            pair_views(pairs@) == motive_pairs(ev.take(i as int)),
        decreases events@.len() - i,
    {
        let named = extract_motive_tags(&events[i]);
        let list = distinct_texts(&named);
        let ghost more = distinct(tags(ev[i as int].motives)).map_values(
            |t: Seq<char>| (t, i as int),
        );
        let ghost start = pair_views(pairs@);
        let mut j: usize = 0;
        assert(pair_views(pairs@) =~= start + more.take(0));
        while j < list.len()
            invariant
                j <= list@.len(),
                texts(list@) == distinct(tags(ev[i as int].motives)),
                more == distinct(tags(ev[i as int].motives)).map_values(
                    |t: Seq<char>| (t, i as int),
                ),
                pair_views(pairs@) == start + more.take(j as int),
            decreases list@.len() - j,
        {
            let ghost before = pair_views(pairs@);
            let name = copy_text(list[j].as_str());
            let ghost nv = name@;
            pairs.push((name, i));
            assert(texts(list@)[j as int] == nv);
            assert(pair_views(pairs@) =~= before.push((nv, i as int)));
            assert(more.take(j + 1) =~= more.take(j as int).push((nv, i as int)));
            j += 1;
            assert(pair_views(pairs@) =~= start + more.take(j as int));
        }
        assert(more.take(j as int) =~= more);
        assert(ev.take(i + 1).drop_last() =~= ev.take(i as int));
        assert(ev.take(i + 1).last() == ev[i as int]);
        assert(more =~= distinct(tags(ev.take(i + 1).last().motives)).map_values(
            |t: Seq<char>| (t, ev.take(i + 1).len() - 1),
        ));
        i += 1;
    }
    assert(ev.take(i as int) =~= ev);
    group_pairs(pairs)
}

/// The position of the first event with identifier `id`, or the number of events.
pub open spec fn id_pos(events: Seq<EventView>, id: u128) -> int
    decreases events.len(),
{
    if events.len() == 0 || events[0].id == id {
        0
    } else {
        1 + id_pos(events.drop_first(), id)
    }
}

/// What is known about an event beyond itself: what is listed in the place of the first event
/// with its identifier, and nothing where the list ends before.
pub open spec fn enrichment_of(
    events: Seq<EventView>,
    enrichments: Seq<EventEnrichment>,
    id: u128,
) -> EventEnrichment {
    let p = id_pos(events, id);
    if p < enrichments.len() {
        enrichments[p]
    } else {
        EventEnrichment {
            topic_recurrence_count: Real { bits: 0 },
            emotional_intensity: Real { bits: 0 },
            mention_frequency: Real { bits: 0 },
            source_count: 0,
        }
    }
}

/// The position of the first event with identifier `id`, or the number of events.
fn find_id(events: &[MemoryEvent], id: u128) -> (r: usize)
    ensures
        r == id_pos(event_views(events@), id),
{
    let ghost ev = event_views(events@);
    let mut i: usize = 0;
    assert(ev.skip(0) =~= ev);
    while i < events.len()
        invariant
            i <= events@.len(),
            ev == event_views(events@),
            id_pos(ev, id) == i + id_pos(ev.skip(i as int), id),
        decreases events@.len() - i,
    {
        assert(ev.skip(i as int)[0] == events@[i as int]@);
        if events[i].id == id {
            return i;
        }
        assert(ev.skip(i as int).drop_first() =~= ev.skip(i + 1));
        i += 1;
    }
    assert(ev.skip(i as int).len() == 0);
    i
}

/// What is known about the events with the given numbers beyond themselves.
pub fn group_enrichments(
    events: &[MemoryEvent],
    numbers: &[usize],
    enrichments: &[EventEnrichment],
) -> (r: Vec<EventEnrichment>)
    requires
        forall|m: int| 0 <= m < numbers@.len() ==> (#[trigger] numbers@[m]) < events@.len(),
    ensures
        r@ == numbers@.map_values(
            |k: usize|
                enrichment_of(event_views(events@), enrichments@, event_views(events@)[k as int].id),
        ),
{
    let ghost ev = event_views(events@);
    let ghost goal = numbers@.map_values(
        |k: usize| enrichment_of(ev, enrichments@, ev[k as int].id),
    );
    let mut out: Vec<EventEnrichment> = Vec::new();
    let mut m: usize = 0;
    while m < numbers.len()
        invariant
            m <= numbers@.len(),
            ev == event_views(events@),
            goal == numbers@.map_values(|k: usize| enrichment_of(ev, enrichments@, ev[k as int].id)),
            forall|j: int| 0 <= j < numbers@.len() ==> (#[trigger] numbers@[j]) < events@.len(),
            out@ == goal.take(m as int),
        decreases numbers@.len() - m,
    {
        let k: usize = numbers[m];
        let p: usize = find_id(events, events[k].id);
        assert(ev[k as int].id == events@[k as int].id);
        let known = if p < enrichments.len() {
            enrichments[p]
        } else {
            EventEnrichment::default()
        };
        out.push(known);
        assert(goal.take(m + 1) =~= goal.take(m as int).push(goal[m as int]));
        m += 1;
    }
    assert(goal.take(m as int) =~= goal);
    out
}

/// The events with the given numbers.
pub open spec fn picked(events: Seq<EventView>, numbers: Seq<int>) -> Seq<EventView> {
    numbers.map_values(|k: int| events[k])
}

/// What named groups of events say.
pub open spec fn event_groups(v: Seq<(String, Vec<MemoryEvent>)>) -> Seq<(
    Seq<char>,
    Seq<EventView>,
)> {
    v.map_values(|g: (String, Vec<MemoryEvent>)| (g.0@, event_views(g.1@)))
}

/// Whether `groups` holds the events under their names, sorted by name.
pub open spec fn grouped_events(
    events: Seq<EventView>,
    pairs: Seq<(Seq<char>, int)>,
    groups: Seq<(Seq<char>, Seq<EventView>)>,
) -> bool {
    &&& forall|a: int, b: int|
        0 <= a < b < groups.len() ==> lex_lt((#[trigger] groups[a]).0, (#[trigger] groups[b]).0)
    &&& forall|a: int|
        0 <= a < groups.len() ==> (#[trigger] groups[a]).1 == picked(
            events,
            members(pairs, groups[a].0),
        ) && groups[a].1.len() > 0
    &&& forall|k: int| 0 <= k < pairs.len() ==> some_events_named(groups, (#[trigger] pairs[k]).0)
}

/// Whether some group of events has the name.
pub open spec fn some_events_named(
    groups: Seq<(Seq<char>, Seq<EventView>)>,
    name: Seq<char>,
) -> bool {
    exists|a: int| 0 <= a < groups.len() && (#[trigger] groups[a]).0 == name
}

/// Copies the events of each group.
fn copy_groups(
    events: &Vec<MemoryEvent>,
    groups: &Vec<(String, Vec<usize>)>,
    Ghost(pairs): Ghost<Seq<(Seq<char>, int)>>,
) -> (r: Vec<(String, Vec<MemoryEvent>)>)
    requires
        grouped(pairs, group_views(groups@)),
        forall|k: int| 0 <= k < pairs.len() ==> 0 <= (#[trigger] pairs[k]).1 < events@.len(),
    ensures
        grouped_events(event_views(events@), pairs, event_groups(r@)),
{
    let ghost ev = event_views(events@);
    let ghost gv = group_views(groups@);
    let mut out: Vec<(String, Vec<MemoryEvent>)> = Vec::new();
    let mut a: usize = 0;
    while a < groups.len()
        invariant
            a <= groups@.len(),
            ev == event_views(events@),
            gv == group_views(groups@),
            grouped(pairs, gv),
            forall|k: int| 0 <= k < pairs.len() ==> 0 <= (#[trigger] pairs[k]).1 < events@.len(),
            out@.len() == a,
            forall|b: int|
                0 <= b < a ==> #[trigger] event_groups(out@)[b] == (
                    gv[b].0,
                    picked(ev, gv[b].1),
                ),
        decreases groups@.len() - a,
    {
        let list = &groups[a].1;
        let ghost want = picked(ev, gv[a as int].1);
        proof {
            assert(gv[a as int].1 == members(pairs, gv[a as int].0));
            lemma_members(pairs, gv[a as int].0);
        }
        let mut copies: Vec<MemoryEvent> = Vec::new();
        let mut m: usize = 0;
        assert(event_views(copies@) =~= want.take(0));
        while m < list.len()
            invariant
                m <= list@.len(),
                ev == event_views(events@),
                gv[a as int].1 == list@.map_values(|k: usize| k as int),
                gv[a as int].1 == members(pairs, gv[a as int].0),
                want == picked(ev, gv[a as int].1),
                event_views(copies@) == want.take(m as int),
                forall|k: int|
                    0 <= k < pairs.len() ==> 0 <= (#[trigger] pairs[k]).1 < events@.len(),
                forall|i: int|
                    0 <= i < members(pairs, gv[a as int].0).len() ==> exists|k: int|
                        0 <= k < pairs.len() && #[trigger] pairs[k] == (
                            gv[a as int].0,
                            #[trigger] members(pairs, gv[a as int].0)[i],
                        ),
            decreases list@.len() - m,
        {
            let ghost before = event_views(copies@);
            assert(gv[a as int].1[m as int] == list@[m as int]);
            assert(members(pairs, gv[a as int].0)[m as int] == list@[m as int]);
            let e = events[list[m]].clone();
            let ghost evw = e@;
            copies.push(e);
            assert(event_views(copies@) =~= before.push(evw));
            assert(want.take(m + 1) =~= want.take(m as int).push(want[m as int]));
            m += 1;
        }
        assert(want.take(m as int) =~= want);
        let name = copy_text(groups[a].0.as_str());
        let ghost before = event_groups(out@);
        out.push((name, copies));
        assert(event_groups(out@) =~= before.push((name@, event_views(copies@))));
        a += 1;
    }
    proof {
        let og = event_groups(out@);
        assert forall|x: int, y: int| 0 <= x < y < og.len() implies lex_lt(
            (#[trigger] og[x]).0,
            (#[trigger] og[y]).0,
        ) by {
            assert(lex_lt(gv[x].0, gv[y].0));
            assert(og[x].0 == gv[x].0 && og[y].0 == gv[y].0);
        }
        assert forall|x: int| 0 <= x < og.len() implies (#[trigger] og[x]).1 == picked(
            ev,
            members(pairs, og[x].0),
        ) && og[x].1.len() > 0 by {
            assert(gv[x].1 == members(pairs, gv[x].0));
            assert(og[x] == (gv[x].0, picked(ev, gv[x].1)));
        }
        assert forall|k: int| 0 <= k < pairs.len() implies some_events_named(
            og,
            (#[trigger] pairs[k]).0,
        ) by {
            assert(named(gv, pairs[k].0));
            let x = choose|x: int| 0 <= x < gv.len() && (#[trigger] gv[x]).0 == pairs[k].0;
            assert(og[x].0 == pairs[k].0);
        }
    }
    out
}

/// The events of each category, sorted by category.
pub fn group_by_category(events: &Vec<MemoryEvent>) -> (r: Vec<(String, Vec<MemoryEvent>)>)
    ensures
        grouped_events(
            event_views(events@),
            category_pairs(event_views(events@)),
            event_groups(r@),
        ),
{
    let groups = category_groups(events);
    copy_groups(events, &groups, Ghost(category_pairs(event_views(events@))))
}

/// The numbers in the pairs of motives are those of events.
proof fn lemma_motive_numbers(events: Seq<EventView>)
    ensures
        forall|k: int|
            0 <= k < motive_pairs(events).len() ==> 0 <= (#[trigger] motive_pairs(events)[k]).1
                < events.len(),
    decreases events.len(),
{
    if events.len() > 0 {
        let front = motive_pairs(events.drop_last());
        lemma_motive_numbers(events.drop_last());
        assert forall|k: int| 0 <= k < motive_pairs(events).len() implies 0 <= (
        #[trigger] motive_pairs(events)[k]).1 < events.len() by {
            if k < front.len() {
                assert(motive_pairs(events)[k] == front[k]);
            }
        }
    }
}

/// The events of each motive, sorted by motive. An event stands under each of its motives,
/// once.
pub fn group_by_motive(events: &Vec<MemoryEvent>) -> (r: Vec<(String, Vec<MemoryEvent>)>)
    ensures
        grouped_events(
            event_views(events@),
            motive_pairs(event_views(events@)),
            event_groups(r@),
        ),
{
    let groups = motive_groups(events);
    proof {
        lemma_motive_numbers(event_views(events@));
    }
    copy_groups(events, &groups, Ghost(motive_pairs(event_views(events@))))
}

/// How many events share the category of each event.
pub open spec fn recurrences(events: Seq<EventView>) -> Seq<int> {
    Seq::new(
        events.len(),
        |i: int| members(category_pairs(events), category_of(events[i])).len() as int,
    )
}

/// Where the group of a name stands.
fn find_group(groups: &Vec<(String, Vec<usize>)>, name: &str) -> (r: usize)
    requires
        named(group_views(groups@), name@),
    ensures
        r < groups@.len(),
        group_views(groups@)[r as int].0 == name@,
{
    let ghost gv = group_views(groups@);
    let mut a: usize = 0;
    while a < groups.len()
        invariant
            a <= groups@.len(),
            gv == group_views(groups@),
            named(gv, name@),
            forall|b: int| 0 <= b < a ==> (#[trigger] gv[b]).0 != name@,
        decreases groups@.len() - a,
    {
        assert(gv[a as int].0 == groups@[a as int].0@);
        if same_text(groups[a].0.as_str(), name) {
            return a;
        }
        a += 1;
    }
    proof {
        let b = choose|b: int| 0 <= b < gv.len() && (#[trigger] gv[b]).0 == name@;
        assert(gv[b].0 != name@);
    }
    0
}

/// Where the group of each event stands.
pub fn group_numbers(events: &Vec<MemoryEvent>, groups: &Vec<(String, Vec<usize>)>) -> (r: Vec<
    usize,
>)
    requires
        grouped(category_pairs(event_views(events@)), group_views(groups@)),
    ensures
        r@.len() == events@.len(),
        forall|i: int|
            0 <= i < r@.len() ==> (#[trigger] r@[i]) < groups@.len() && group_views(
                groups@,
            )[r@[i] as int].0 == category_of(events@[i]@),
{
    let ghost pairs = category_pairs(event_views(events@));
    let mut out: Vec<usize> = Vec::new();
    let mut i: usize = 0;
    while i < events.len()
        invariant
            i <= events@.len(),
            pairs == category_pairs(event_views(events@)),
            grouped(pairs, group_views(groups@)),
            out@.len() == i,
            forall|j: int|
                0 <= j < out@.len() ==> (#[trigger] out@[j]) < groups@.len() && group_views(
                    groups@,
                )[out@[j] as int].0 == category_of(events@[j]@),
        decreases events@.len() - i,
    {
        let name = extract_primary_category(&events[i]);
        assert(named(group_views(groups@), pairs[i as int].0));
        out.push(find_group(groups, name.as_str()));
        i += 1;
    }
    out
}

/// How many events share the category of each event, and the largest of these numbers; it is
/// zero where there is no event.
pub fn recurrence_counts(events: &Vec<MemoryEvent>) -> (r: (Vec<usize>, usize))
    ensures
        r.0@.map_values(|n: usize| n as int) == recurrences(event_views(events@)),
        forall|i: int| 0 <= i < r.0@.len() ==> #[trigger] r.0@[i] <= r.1,
        r.0@.len() > 0 ==> r.0@.contains(r.1) && r.1 > 0,
        r.0@.len() == 0 ==> r.1 == 0,
{
    let ghost ev = event_views(events@);
    let groups = category_groups(events);
    let numbers = group_numbers(events, &groups);
    let mut counts: Vec<usize> = Vec::new();
    let mut most: usize = 0;
    let mut i: usize = 0;
    while i < events.len()
        invariant
            i <= events@.len(),
            ev == event_views(events@),
            grouped(category_pairs(ev), group_views(groups@)),
            numbers@.len() == events@.len(),
            forall|j: int|
                0 <= j < numbers@.len() ==> (#[trigger] numbers@[j]) < groups@.len()
                    && group_views(groups@)[numbers@[j] as int].0 == category_of(events@[j]@),
            counts@.len() == i,
            forall|j: int| 0 <= j < counts@.len() ==> #[trigger] counts@[j] == recurrences(ev)[j],
            forall|j: int| 0 <= j < counts@.len() ==> #[trigger] counts@[j] <= most,
            i > 0 ==> counts@.contains(most) && most > 0,
            i == 0 ==> most == 0,
        decreases events@.len() - i,
    {
        let g: usize = numbers[i];
        let n: usize = groups[g].1.len();
        proof {
            assert(group_views(groups@)[g as int].1 == members(
                category_pairs(ev),
                category_of(ev[i as int]),
            ));
        }
        let ghost before = counts@;
        counts.push(n);
        assert(counts@[i as int] == n);
        if n > most {
            most = n;
        } else {
            assert(before.contains(most));
            let ghost j = choose|j: int| 0 <= j < before.len() && before[j] == most;
            assert(counts@[j] == most);
        }
        i += 1;
    }
    assert(counts@.map_values(|n: usize| n as int) =~= recurrences(ev));
    (counts, most)
}

/// The group of a category holds the events of that category, in their order.
pub proof fn law_category_group(events: Seq<EventView>, name: Seq<char>)
    ensures
        picked(events, members(category_pairs(events), name)) == events.filter(
            |e: EventView| category_of(e) == name,
        ),
    decreases events.len(),
{
    reveal(Seq::filter);
    let f = |e: EventView| category_of(e) == name;
    if events.len() > 0 {
        let front = events.drop_last();
        law_category_group(front, name);
        let n = members(category_pairs(front), name);
        assert(category_pairs(events).drop_last() =~= category_pairs(front));
        lemma_members(category_pairs(front), name);
        assert(picked(events, n) =~= picked(front, n)) by {
            assert forall|m: int| 0 <= m < n.len() implies events[n[m]] == front[n[m]] by {
                let k = choose|k: int|
                    0 <= k < front.len() && #[trigger] category_pairs(front)[k] == (
                        name,
                        n[m],
                    );
                assert(category_pairs(front)[k].1 == k);
            }
        }
        assert(picked(events, n.push(events.len() - 1)) =~= picked(events, n).push(events.last()));
        assert(picked(events, members(category_pairs(events), name)) =~= events.filter(f));
    } else {
        assert(picked(events, members(category_pairs(events), name)) =~= events.filter(f));
    }
}

/// Every event stands in the group of one category and of no other.
pub proof fn law_every_event_in_one_category(
    events: Seq<EventView>,
    groups: Seq<(Seq<char>, Seq<int>)>,
    k: int,
)
    requires
        grouped(category_pairs(events), groups),
        0 <= k < events.len(),
    ensures
        exists|a: int| 0 <= a < groups.len() && (#[trigger] groups[a]).1.contains(k),
        forall|a: int|
            0 <= a < groups.len() && (#[trigger] groups[a]).1.contains(k) ==> groups[a].0
                == category_of(events[k]),
        forall|a: int, b: int|
            0 <= a < groups.len() && 0 <= b < groups.len() && (#[trigger] groups[a]).1.contains(k)
                && (#[trigger] groups[b]).1.contains(k) ==> a == b,
{
    let pairs = category_pairs(events);
    assert(pairs[k] == (category_of(events[k]), k));
    assert(named(groups, pairs[k].0));
    let a = choose|a: int| 0 <= a < groups.len() && (#[trigger] groups[a]).0 == pairs[k].0;
    lemma_members(pairs, pairs[k].0);
    assert(groups[a].1.contains(k));
    assert forall|x: int| 0 <= x < groups.len() && (#[trigger] groups[x]).1.contains(k) implies groups[x].0
        == category_of(events[k]) by {
        lemma_members(pairs, groups[x].0);
        let m = choose|m: int| 0 <= m < groups[x].1.len() && groups[x].1[m] == k;
        assert(members(pairs, groups[x].0)[m] == k);
        let j = choose|j: int|
            0 <= j < pairs.len() && #[trigger] pairs[j] == (
                groups[x].0,
                members(pairs, groups[x].0)[m],
            );
        assert(pairs[j].1 == j);
    }
    assert forall|x: int, y: int|
        0 <= x < groups.len() && 0 <= y < groups.len() && (#[trigger] groups[x]).1.contains(k) && (
        #[trigger] groups[y]).1.contains(k) implies x == y by {
        lemma_lex_irreflexive(groups[x].0);
        if x < y {
            assert(lex_lt(groups[x].0, groups[y].0));
        } else if y < x {
            assert(lex_lt(groups[y].0, groups[x].0));
        }
    }
}

/// The name of a group of events is the name of some pair.
proof fn lemma_group_name(
    events: Seq<EventView>,
    pairs: Seq<(Seq<char>, int)>,
    groups: Seq<(Seq<char>, Seq<EventView>)>,
    a: int,
) -> (k: int)
    requires
        grouped_events(events, pairs, groups),
        0 <= a < groups.len(),
    ensures
        0 <= k < pairs.len(),
        pairs[k].0 == groups[a].0,
{
    lemma_members(pairs, groups[a].0);
    let m = members(pairs, groups[a].0);
    assert(groups[a].1 == picked(events, m));
    choose|k: int| 0 <= k < pairs.len() && #[trigger] pairs[k] == (groups[a].0, m[0])
}

/// Two ways to group the same events have the same names.
proof fn lemma_same_names(
    events: Seq<EventView>,
    pairs: Seq<(Seq<char>, int)>,
    g: Seq<(Seq<char>, Seq<EventView>)>,
    h: Seq<(Seq<char>, Seq<EventView>)>,
    i: int,
)
    requires
        grouped_events(events, pairs, g),
        grouped_events(events, pairs, h),
        0 <= i < g.len(),
    ensures
        i < h.len(),
        g[i].0 == h[i].0,
    decreases i,
{
    assert forall|j: int| 0 <= j < i implies j < h.len() && (#[trigger] g[j]).0 == h[j].0 by {
        lemma_same_names(events, pairs, g, h, j);
    }
    let k = lemma_group_name(events, pairs, g, i);
    assert(some_events_named(h, pairs[k].0));
    let j = choose|j: int| 0 <= j < h.len() && (#[trigger] h[j]).0 == g[i].0;
    lemma_lex_irreflexive(g[i].0);
    if j < i {
        assert(lex_lt(g[j].0, g[i].0));
    }
    if j > i {
        assert(lex_lt(h[i].0, h[j].0));
        let m = lemma_group_name(events, pairs, h, i);
        assert(some_events_named(g, pairs[m].0));
        let l = choose|l: int| 0 <= l < g.len() && (#[trigger] g[l]).0 == h[i].0;
        lemma_lex_irreflexive(h[i].0);
        if l < i {
            assert(lex_lt(h[l].0, h[i].0));
        } else if l > i {
            assert(lex_lt(g[i].0, g[l].0));
            lemma_lex_transitive(g[i].0, h[i].0, g[i].0);
        }
    }
}

/// There is one way to group events.
pub proof fn law_groups_are_unique(
    events: Seq<EventView>,
    pairs: Seq<(Seq<char>, int)>,
    g: Seq<(Seq<char>, Seq<EventView>)>,
    h: Seq<(Seq<char>, Seq<EventView>)>,
)
    requires
        grouped_events(events, pairs, g),
        grouped_events(events, pairs, h),
    ensures
        g == h,
{
    if g.len() > 0 {
        lemma_same_names(events, pairs, g, h, g.len() - 1);
    }
    if h.len() > 0 {
        lemma_same_names(events, pairs, h, g, h.len() - 1);
    }
    assert forall|i: int| 0 <= i < g.len() implies g[i] == h[i] by {
        lemma_same_names(events, pairs, g, h, i);
    }
    assert(g =~= h);
}

/// The events of all groups, one group after the other.
pub open spec fn gathered(groups: Seq<(Seq<char>, Seq<EventView>)>) -> Seq<EventView>
    decreases groups.len(),
{
    if groups.len() == 0 {
        Seq::empty()
    } else {
        gathered(groups.drop_last()) + groups.last().1
    }
}

/// The events of some categories.
spec fn of_names(events: Seq<EventView>, groups: Seq<(Seq<char>, Seq<EventView>)>) -> Multiset<
    EventView,
>
    decreases groups.len(),
{
    if groups.len() == 0 {
        Multiset::empty()
    } else {
        of_names(events, groups.drop_last()).add(
            events.filter(|e: EventView| category_of(e) == groups.last().0).to_multiset(),
        )
    }
}

/// One more event counts once where its category is that of a group.
proof fn lemma_of_names(events: Seq<EventView>, groups: Seq<(Seq<char>, Seq<EventView>)>)
    requires
        events.len() > 0,
        forall|a: int, b: int|
            0 <= a < b < groups.len() ==> lex_lt((#[trigger] groups[a]).0, (#[trigger] groups[b]).0),
    ensures
        of_names(events, groups) == (if some_events_named(groups, category_of(events.last())) {
            of_names(events.drop_last(), groups).insert(events.last())
        } else {
            of_names(events.drop_last(), groups)
        }),
    decreases groups.len(),
{
    reveal(Seq::filter);
    if groups.len() > 0 {
        let front = groups.drop_last();
        let rest = events.drop_last();
        let e = events.last();
        let name = category_of(e);
        let f = |x: EventView| category_of(x) == groups.last().0;
        lemma_of_names(events, front);
        rest.filter(f).to_multiset_ensures();
        if some_events_named(front, name) {
            let a = choose|a: int| 0 <= a < front.len() && (#[trigger] front[a]).0 == name;
            lemma_lex_irreflexive(name);
            assert(lex_lt(groups[a].0, groups[groups.len() - 1].0));
            assert(groups[a].0 == name);
            assert(some_events_named(groups, name));
            assert(of_names(events, groups) =~= of_names(rest, groups).insert(e));
        } else if groups.last().0 == name {
            assert(groups[groups.len() - 1].0 == name);
            assert(some_events_named(groups, name));
            assert(of_names(events, groups) =~= of_names(rest, groups).insert(e));
        } else {
            if some_events_named(groups, name) {
                let a = choose|a: int| 0 <= a < groups.len() && (#[trigger] groups[a]).0 == name;
                assert(front[a].0 == name);
            }
            assert(of_names(events, groups) =~= of_names(rest, groups));
        }
    }
}

/// Where there is no event, none has a name.
proof fn lemma_none_of_names(groups: Seq<(Seq<char>, Seq<EventView>)>)
    ensures
        of_names(Seq::empty(), groups) == Multiset::<EventView>::empty(),
    decreases groups.len(),
{
    reveal(Seq::filter);
    if groups.len() > 0 {
        lemma_none_of_names(groups.drop_last());
        let kept = Seq::<EventView>::empty().filter(
            |e: EventView| category_of(e) == groups.last().0,
        );
        assert(kept =~= Seq::<EventView>::empty());
        kept.to_multiset_ensures();
        assert(of_names(Seq::empty(), groups) =~= Multiset::<EventView>::empty());
    }
}

/// Where the category of every event is that of a group, the groups have all events.
proof fn lemma_all_of_names(events: Seq<EventView>, groups: Seq<(Seq<char>, Seq<EventView>)>)
    requires
        forall|a: int, b: int|
            0 <= a < b < groups.len() ==> lex_lt((#[trigger] groups[a]).0, (#[trigger] groups[b]).0),
        forall|k: int|
            0 <= k < events.len() ==> some_events_named(groups, category_of(#[trigger] events[k])),
    ensures
        of_names(events, groups) == events.to_multiset(),
    decreases events.len(),
{
    if events.len() > 0 {
        let rest = events.drop_last();
        assert forall|k: int| 0 <= k < rest.len() implies some_events_named(
            groups,
            category_of(#[trigger] rest[k]),
        ) by {
            assert(rest[k] == events[k]);
        }
        lemma_all_of_names(rest, groups);
        lemma_of_names(events, groups);
        assert(some_events_named(groups, category_of(events[events.len() - 1])));
        rest.to_multiset_ensures();
        assert(events =~= rest.push(events.last()));
    } else {
        assert(events =~= Seq::<EventView>::empty());
        lemma_none_of_names(groups);
        events.to_multiset_ensures();
        assert(events.to_multiset() =~= Multiset::<EventView>::empty());
    }
}

/// The groups hold the events of their names.
proof fn lemma_gathered(events: Seq<EventView>, groups: Seq<(Seq<char>, Seq<EventView>)>)
    requires
        forall|a: int|
            0 <= a < groups.len() ==> (#[trigger] groups[a]).1 == picked(
                events,
                members(category_pairs(events), groups[a].0),
            ),
    ensures
        gathered(groups).to_multiset() == of_names(events, groups),
    decreases groups.len(),
{
    if groups.len() > 0 {
        let front = groups.drop_last();
        assert forall|a: int| 0 <= a < front.len() implies (#[trigger] front[a]).1 == picked(
            events,
            members(category_pairs(events), front[a].0),
        ) by {
            assert(front[a] == groups[a]);
        }
        lemma_gathered(events, front);
        let last = groups[groups.len() - 1];
        law_category_group(events, last.0);
        vstd::seq_lib::lemma_multiset_commutative(gathered(front), last.1);
    } else {
        gathered(groups).to_multiset_ensures();
        assert(gathered(groups).to_multiset() =~= Multiset::<EventView>::empty());
    }
}

/// Grouping by category loses no event and holds none twice: the groups together hold the
/// events, each as often as it is there.
pub proof fn law_groups_hold_all(
    events: Seq<EventView>,
    groups: Seq<(Seq<char>, Seq<EventView>)>,
)
    requires
        grouped_events(events, category_pairs(events), groups),
    ensures
        gathered(groups).to_multiset() == events.to_multiset(),
        gathered(groups).len() == events.len(),
{
    let pairs = category_pairs(events);
    assert forall|k: int| 0 <= k < events.len() implies some_events_named(
        groups,
        category_of(#[trigger] events[k]),
    ) by {
        assert(pairs[k].0 == category_of(events[k]));
    }
    lemma_gathered(events, groups);
    lemma_all_of_names(events, groups);
    events.to_multiset_ensures();
    gathered(groups).to_multiset_ensures();
}

/// What goes with a name in two lists of pairs, one after the other.
proof fn lemma_members_of_sum(
    a: Seq<(Seq<char>, int)>,
    b: Seq<(Seq<char>, int)>,
    name: Seq<char>,
)
    ensures
        members(a + b, name) == members(a, name) + members(b, name),
    decreases b.len(),
{
    if b.len() == 0 {
        assert(a + b =~= a);
        assert(members(a, name) + members(b, name) =~= members(a, name));
    } else {
        lemma_members_of_sum(a, b.drop_last(), name);
        assert((a + b).drop_last() =~= a + b.drop_last());
        assert(members(a + b, name) =~= members(a, name) + members(b, name));
    }
}

/// Of pairs with different names, at most one goes with a name.
proof fn lemma_members_of_distinct(ts: Seq<Seq<char>>, k: int, name: Seq<char>)
    requires
        ts.no_duplicates(),
    ensures
        members(ts.map_values(|t: Seq<char>| (t, k)), name) == (if ts.contains(name) {
            seq![k]
        } else {
            Seq::empty()
        }),
    decreases ts.len(),
{
    let pairs = ts.map_values(|t: Seq<char>| (t, k));
    if ts.len() > 0 {
        let front = ts.drop_last();
        lemma_members_of_distinct(front, k, name);
        assert(pairs.drop_last() =~= front.map_values(|t: Seq<char>| (t, k)));
        if ts.last() == name {
            assert(ts[ts.len() - 1] == name);
            assert(!front.contains(name));
            assert(members(pairs, name) =~= seq![k]);
        } else if ts.contains(name) {
            let i = choose|i: int| 0 <= i < ts.len() && ts[i] == name;
            assert(front[i] == name);
        }
    } else {
        assert(!ts.contains(name));
    }
}

/// The group of a motive holds the events that name it, each once and in their order.
pub proof fn law_motive_group(events: Seq<EventView>, name: Seq<char>)
    ensures
        picked(events, members(motive_pairs(events), name)) == events.filter(
            |e: EventView| tags(e.motives).contains(name),
        ),
    decreases events.len(),
{
    reveal(Seq::filter);
    let f = |e: EventView| tags(e.motives).contains(name);
    if events.len() > 0 {
        let front = events.drop_last();
        let last = distinct(tags(events.last().motives));
        let n = members(motive_pairs(front), name);
        law_motive_group(front, name);
        lemma_distinct(tags(events.last().motives));
        lemma_members_of_distinct(last, events.len() - 1, name);
        lemma_members_of_sum(
            motive_pairs(front),
            last.map_values(|t: Seq<char>| (t, events.len() - 1)),
            name,
        );
        lemma_members(motive_pairs(front), name);
        lemma_motive_numbers(front);
        assert(picked(events, n) =~= picked(front, n)) by {
            assert forall|m: int| 0 <= m < n.len() implies events[n[m]] == front[n[m]] by {
                let k = choose|k: int|
                    0 <= k < motive_pairs(front).len() && #[trigger] motive_pairs(front)[k] == (
                        name,
                        n[m],
                    );
                assert(motive_pairs(front)[k].1 < front.len());
            }
        }
        if f(events.last()) {
            assert(picked(events, n + seq![events.len() - 1]) =~= picked(events, n).push(
                events.last(),
            ));
        } else {
            assert(n + Seq::<int>::empty() =~= n);
        }
        assert(picked(events, members(motive_pairs(events), name)) =~= events.filter(f));
    } else {
        assert(picked(events, members(motive_pairs(events), name)) =~= events.filter(f));
    }
}

/// The tags of a field are what stands between its commas, trimmed and in order, without what
/// is blank; every piece that is not blank gives one.
pub proof fn law_tags_of_pieces(s: Seq<char>)
    ensures
        tags(Some(s)) == split(s, |c: char| c == ',').filter(
            |p: Seq<char>| exists|i: int| 0 <= i < p.len() && !is_space(#[trigger] p[i]),
        ).map_values(|p: Seq<char>| trim(p)),
        tags(None).len() == 0,
{
    lemma_tag_list(split(s, |c: char| c == ','));
}

proof fn lemma_tag_list(pieces: Seq<Seq<char>>)
    ensures
        tag_list(pieces) == pieces.filter(
            |p: Seq<char>| exists|i: int| 0 <= i < p.len() && !is_space(#[trigger] p[i]),
        ).map_values(|p: Seq<char>| trim(p)),
    decreases pieces.len(),
{
    reveal(Seq::filter);
    let keep = |p: Seq<char>| exists|i: int| 0 <= i < p.len() && !is_space(#[trigger] p[i]);
    let f = |p: Seq<char>| trim(p);
    if pieces.len() > 0 {
        lemma_tag_list(pieces.drop_last());
        law_trim_takes_spaces_off(pieces.last());
        let front = pieces.drop_last().filter(keep);
        assert(keep(pieces.last()) == !blank(pieces.last()));
        if !blank(pieces.last()) {
            assert(front.push(pieces.last()).map_values(f) =~= front.map_values(f).push(
                trim(pieces.last()),
            ));
        }
    } else {
        assert(pieces.filter(keep).map_values(f) =~= Seq::<Seq<char>>::empty());
    }
}

/// The category of an event is the first of its keywords; an event without keywords is in the
/// category of those.
pub proof fn law_category_is_first_tag(e: EventView)
    ensures
        tags(e.keywords).len() > 0 ==> category_of(e) == tags(e.keywords)[0],
        tags(e.keywords).len() == 0 ==> category_of(e) == "未分类"@,
{
}

/// A category comes back as often as there are events of it.
pub proof fn law_recurrence_counts_category(events: Seq<EventView>, i: int)
    requires
        0 <= i < events.len(),
    ensures
        recurrences(events).len() == events.len(),
        recurrences(events)[i] == events.filter(
            |e: EventView| category_of(e) == category_of(events[i]),
        ).len(),
{
    law_category_group(events, category_of(events[i]));
    let m = members(category_pairs(events), category_of(events[i]));
    assert(picked(events, m).len() == m.len());
}

/// What is known about an event is what is listed for the first event with its identifier;
/// nothing is known where the list ends before that.
pub proof fn law_enrichment_by_identifier(
    events: Seq<EventView>,
    enrichments: Seq<EventEnrichment>,
    k: int,
)
    requires
        0 <= k < events.len(),
        forall|m: int| 0 <= m < k ==> (#[trigger] events[m]).id != events[k].id,
    ensures
        k < enrichments.len() ==> enrichment_of(events, enrichments, events[k].id)
            == enrichments[k],
        k >= enrichments.len() ==> enrichment_of(events, enrichments, events[k].id) == (
        EventEnrichment {
            topic_recurrence_count: Real { bits: 0 },
            emotional_intensity: Real { bits: 0 },
            mention_frequency: Real { bits: 0 },
            source_count: 0,
        }),
{
    lemma_id_pos(events, events[k].id, k);
}

proof fn lemma_id_pos(events: Seq<EventView>, id: u128, k: int)
    requires
        0 <= k < events.len(),
        events[k].id == id,
        forall|m: int| 0 <= m < k ==> (#[trigger] events[m]).id != id,
    ensures
        id_pos(events, id) == k,
    decreases events.len(),
{
    if k > 0 {
        let rest = events.drop_first();
        assert(events[0].id != id);
        assert forall|m: int| 0 <= m < k - 1 implies (#[trigger] rest[m]).id != id by {
            assert(rest[m] == events[m + 1]);
        }
        lemma_id_pos(rest, id, k - 1);
    }
}

/// The groups of categories come in the order of their names, each name once; each group lists
/// the numbers of the events of its category, ascending, and every event is listed.
pub proof fn law_category_numbers(
    events: Seq<EventView>,
    groups: Seq<(Seq<char>, Seq<int>)>,
    a: int,
)
    requires
        grouped(category_pairs(events), groups),
        0 <= a < groups.len(),
    ensures
        forall|b: int| a < b < groups.len() ==> lex_lt(groups[a].0, (#[trigger] groups[b]).0),
        groups[a].1.len() > 0,
        forall|i: int, j: int|
            0 <= i < j < groups[a].1.len() ==> #[trigger] groups[a].1[i] < #[trigger] groups[a].1[j],
        forall|k: int|
            #[trigger] groups[a].1.contains(k) <==> 0 <= k < events.len() && category_of(events[k])
                == groups[a].0,
{
    let pairs = category_pairs(events);
    let name = groups[a].0;
    lemma_member_numbers(events, name, events.len() as int);
    assert(pairs.take(events.len() as int) =~= pairs);
    assert(groups[a].1 == members(pairs, name));
}

proof fn lemma_member_numbers(events: Seq<EventView>, name: Seq<char>, n: int)
    requires
        0 <= n <= events.len(),
    ensures
        ({
            let m = members(category_pairs(events).take(n), name);
            &&& forall|i: int, j: int| 0 <= i < j < m.len() ==> #[trigger] m[i] < #[trigger] m[j]
            &&& forall|k: int|
                #[trigger] m.contains(k) <==> 0 <= k < n && category_of(events[k]) == name
        }),
    decreases n,
{
    let pairs = category_pairs(events);
    let m = members(pairs.take(n), name);
    if n > 0 {
        lemma_member_numbers(events, name, n - 1);
        let f = members(pairs.take(n - 1), name);
        assert(pairs.take(n).drop_last() =~= pairs.take(n - 1));
        assert(pairs.take(n).last() == (category_of(events[n - 1]), n - 1));
        assert forall|k: int| #[trigger] m.contains(k) <==> 0 <= k < n && category_of(events[k])
            == name by {
            assert(f.contains(k) <==> 0 <= k < n - 1 && category_of(events[k]) == name);
            if m.contains(k) {
                let i = choose|i: int| 0 <= i < m.len() && m[i] == k;
                if i < f.len() {
                    assert(f[i] == k);
                }
            }
            if f.contains(k) {
                let i = choose|i: int| 0 <= i < f.len() && f[i] == k;
                assert(m[i] == k);
            }
            if category_of(events[n - 1]) == name {
                assert(m[f.len() as int] == n - 1);
            }
        }
        assert forall|i: int, j: int| 0 <= i < j < m.len() implies #[trigger] m[i]
            < #[trigger] m[j] by {
            assert(f.contains(f[i]));
            if j < f.len() {
                assert(f[i] < f[j]);
            }
        }
    } else {
        assert(pairs.take(0) =~= Seq::<(Seq<char>, int)>::empty());
    }
}

proof fn lemma_motive_members(events: Seq<EventView>, name: Seq<char>)
    ensures
        ({
            let m = members(motive_pairs(events), name);
            &&& forall|i: int, j: int| 0 <= i < j < m.len() ==> #[trigger] m[i] < #[trigger] m[j]
            &&& forall|k: int|
                #[trigger] m.contains(k) <==> 0 <= k < events.len() && tags(
                    events[k].motives,
                ).contains(name)
        }),
    decreases events.len(),
{
    let m = members(motive_pairs(events), name);
    if events.len() > 0 {
        let n = events.len() - 1;
        let front = events.drop_last();
        let last = distinct(tags(events.last().motives));
        let f = members(motive_pairs(front), name);
        lemma_motive_members(front, name);
        lemma_distinct(tags(events.last().motives));
        lemma_members_of_distinct(last, n, name);
        lemma_members_of_sum(
            motive_pairs(front),
            last.map_values(|t: Seq<char>| (t, events.len() - 1)),
            name,
        );
        assert forall|i: int| 0 <= i < f.len() implies (#[trigger] f[i]) < n by {
            assert(f.contains(f[i]));
        }
        assert forall|k: int| #[trigger] m.contains(k) <==> 0 <= k < events.len() && tags(
            events[k].motives,
        ).contains(name) by {
            assert(f.contains(k) <==> 0 <= k < front.len() && tags(front[k].motives).contains(
                name,
            ));
            if m.contains(k) {
                let i = choose|i: int| 0 <= i < m.len() && m[i] == k;
                if i < f.len() {
                    assert(f[i] == k);
                    assert(f.contains(k));
                }
            }
            if f.contains(k) {
                let i = choose|i: int| 0 <= i < f.len() && f[i] == k;
                assert(m[i] == k);
            }
            if k == n && last.contains(name) {
                assert(m[f.len() as int] == n);
            }
        }
    } else {
        assert(m =~= Seq::<int>::empty());
    }
}

/// The groups of motives come in the order of their names, each name once; each group lists the
/// numbers of the events that name its motive, ascending, and no motive of an event is without a
/// group.
pub proof fn law_motive_numbers(
    events: Seq<EventView>,
    groups: Seq<(Seq<char>, Seq<int>)>,
    a: int,
    k: int,
    t: Seq<char>,
)
    requires
        grouped(motive_pairs(events), groups),
    ensures
        0 <= a < groups.len() ==> {
            &&& forall|b: int| a < b < groups.len() ==> lex_lt(groups[a].0, (#[trigger] groups[b]).0)
            &&& groups[a].1.len() > 0
            &&& forall|i: int, j: int|
                0 <= i < j < groups[a].1.len() ==> #[trigger] groups[a].1[i]
                    < #[trigger] groups[a].1[j]
            &&& forall|x: int|
                #[trigger] groups[a].1.contains(x) <==> 0 <= x < events.len() && tags(
                    events[x].motives,
                ).contains(groups[a].0)
        },
        0 <= k < events.len() && tags(events[k].motives).contains(t) ==> exists|b: int|
            0 <= b < groups.len() && (#[trigger] groups[b]).0 == t,
{
    let pairs = motive_pairs(events);
    if 0 <= a < groups.len() {
        lemma_motive_members(events, groups[a].0);
        assert(groups[a].1 == members(pairs, groups[a].0));
    }
    if 0 <= k < events.len() && tags(events[k].motives).contains(t) {
        let m = members(pairs, t);
        lemma_motive_members(events, t);
        assert(m.contains(k));
        let i = choose|i: int| 0 <= i < m.len() && m[i] == k;
        lemma_members(pairs, t);
        let x = choose|x: int| 0 <= x < pairs.len() && #[trigger] pairs[x] == (t, m[i]);
        assert(named(groups, pairs[x].0));
    }
}

/// Events grouped by category come in the order of the names, each name once; each group holds
/// the events of its category, in their order, and no event is without a group.
pub proof fn law_groups_of_categories(
    events: Seq<EventView>,
    groups: Seq<(Seq<char>, Seq<EventView>)>,
    k: int,
)
    requires
        grouped_events(events, category_pairs(events), groups),
    ensures
        forall|a: int, b: int|
            0 <= a < b < groups.len() ==> lex_lt((#[trigger] groups[a]).0, (#[trigger] groups[b]).0),
        forall|a: int|
            0 <= a < groups.len() ==> (#[trigger] groups[a]).1.len() > 0 && groups[a].1
                == events.filter(|e: EventView| category_of(e) == groups[a].0),
        0 <= k < events.len() ==> exists|a: int|
            0 <= a < groups.len() && (#[trigger] groups[a]).0 == category_of(events[k]),
{
    let pairs = category_pairs(events);
    assert forall|a: int| 0 <= a < groups.len() implies (#[trigger] groups[a]).1.len() > 0
        && groups[a].1 == events.filter(|e: EventView| category_of(e) == groups[a].0) by {
        law_category_group(events, groups[a].0);
    }
    if 0 <= k < events.len() {
        assert(pairs[k].0 == category_of(events[k]));
        assert(some_events_named(groups, pairs[k].0));
    }
}

/// Events grouped by motive come in the order of the names, each name once; each group holds the
/// events that name its motive, in their order, and no motive of an event is without a group.
pub proof fn law_groups_of_motives(
    events: Seq<EventView>,
    groups: Seq<(Seq<char>, Seq<EventView>)>,
    k: int,
    t: Seq<char>,
)
    requires
        grouped_events(events, motive_pairs(events), groups),
    ensures
        forall|a: int, b: int|
            0 <= a < b < groups.len() ==> lex_lt((#[trigger] groups[a]).0, (#[trigger] groups[b]).0),
        forall|a: int|
            0 <= a < groups.len() ==> (#[trigger] groups[a]).1.len() > 0 && groups[a].1
                == events.filter(|e: EventView| tags(e.motives).contains(groups[a].0)),
        0 <= k < events.len() && tags(events[k].motives).contains(t) ==> exists|a: int|
            0 <= a < groups.len() && (#[trigger] groups[a]).0 == t,
{
    let pairs = motive_pairs(events);
    assert forall|a: int| 0 <= a < groups.len() implies (#[trigger] groups[a]).1.len() > 0
        && groups[a].1 == events.filter(|e: EventView| tags(e.motives).contains(groups[a].0)) by {
        law_motive_group(events, groups[a].0);
    }
    if 0 <= k < events.len() && tags(events[k].motives).contains(t) {
        let m = members(pairs, t);
        lemma_motive_members(events, t);
        assert(m.contains(k));
        let i = choose|i: int| 0 <= i < m.len() && m[i] == k;
        lemma_members(pairs, t);
        let x = choose|x: int| 0 <= x < pairs.len() && #[trigger] pairs[x] == (t, m[i]);
        assert(some_events_named(groups, pairs[x].0));
    }
}

/// What groups and pairs say is what stands in them, in order.
pub proof fn law_groups_are_seen(
    v: Seq<(String, Vec<usize>)>,
    w: Seq<(String, Vec<MemoryEvent>)>,
    p: Seq<(String, usize)>,
    i: int,
)
    ensures
        group_views(v).len() == v.len() && event_groups(w).len() == w.len() && pair_views(p).len()
            == p.len(),
        0 <= i < v.len() ==> group_views(v)[i].0 == v[i].0@ && group_views(v)[i].1.len()
            == v[i].1@.len(),
        forall|k: int|
            0 <= i < v.len() && 0 <= k < v[i].1@.len() ==> #[trigger] group_views(v)[i].1[k]
                == v[i].1@[k],
        0 <= i < w.len() ==> event_groups(w)[i] == (w[i].0@, event_views(w[i].1@)),
        0 <= i < p.len() ==> pair_views(p)[i] == (p[i].0@, p[i].1 as int),
{
}

} // verus!
