//! The events that stand for their categories.

use vstd::prelude::*;

use crate::binary64::Real;
use crate::inference::stats::category::{category_groups, category_of, extract_primary_category,
    group_numbers, group_views};
use crate::inference::stats::config::{event_views, EventView, MemoryEvent};
use crate::order::{key_lt, key_seqs, lemma_lists_all, lemma_sorted_unique, lists_all, ordered_by,
    record_before, stable_order};
use crate::text::{copy_opt, copy_text, lemma_lex_irreflexive, lemma_lex_transitive, lex_lt,
    opt_text, same_text, texts};

verus! {

/// Whether event `j` is more salient than event `i`, or as salient and earlier.
pub open spec fn better(events: Seq<EventView>, j: int, i: int) -> bool {
    events[j].salience.rank() > events[i].salience.rank() || (events[j].salience.rank()
        == events[i].salience.rank() && j < i)
}

/// How many of the first `n` events are better than event `i` in its category.
pub open spec fn count_better(events: Seq<EventView>, i: int, n: int) -> nat
    decreases n,
{
    if n <= 0 {
        0
    } else {
        count_better(events, i, n - 1) + (if category_of(events[n - 1]) == category_of(events[i])
            && better(events, n - 1, i) {
            1nat
        } else {
            0nat
        })
    }
}

/// Whether event `i` stands for its category: fewer than `max` events there are better.
pub open spec fn stands_out(events: Seq<EventView>, max: nat, i: int) -> bool {
    count_better(events, i, events.len() as int) < max
}

/// The place of a category: where it is named last, or behind all others.
pub open spec fn place_of(categories: Seq<Seq<char>>, name: Seq<char>) -> int
    decreases categories.len(),
{
    if categories.len() == 0 {
        0
    } else if categories.last() == name {
        categories.len() - 1
    } else {
        let p = place_of(categories.drop_last(), name);
        if p < categories.len() - 1 {
            p
        } else {
            categories.len() as int
        }
    }
}

/// Whether event `i` comes before event `j`: by the place of the category, then by salience,
/// then by the name of the category, then by position.
pub open spec fn comes_before(
    events: Seq<EventView>,
    categories: Seq<Seq<char>>,
    i: int,
    j: int,
) -> bool {
    let a = category_of(events[i]);
    let b = category_of(events[j]);
    let x = place_of(categories, a);
    let y = place_of(categories, b);
    let p = events[i].salience.rank();
    let q = events[j].salience.rank();
    ||| x < y
    ||| x == y && p > q
    ||| x == y && p == q && (lex_lt(a, b) || (a == b && i < j))
}

/// Whether `r` lists the events that stand for their categories, in order.
pub open spec fn is_selection(
    events: Seq<EventView>,
    categories: Seq<Seq<char>>,
    max: nat,
    r: Seq<int>,
) -> bool {
    &&& forall|a: int|
        0 <= a < r.len() ==> 0 <= #[trigger] r[a] < events.len() && stands_out(events, max, r[a])
    &&& forall|i: int|
        0 <= i < events.len() && #[trigger] stands_out(events, max, i) ==> r.contains(i)
    &&& forall|a: int, b: int|
        0 <= a < b < r.len() ==> comes_before(
            events,
            categories,
            #[trigger] r[a],
            #[trigger] r[b],
        )
}

/// The place of a category.
fn find_place(categories: &Vec<String>, name: &str) -> (r: usize)
    ensures
        r == place_of(texts(categories@), name@),
        r <= categories@.len(),
{
    let ghost all = texts(categories@);
    let mut r: usize = 0;
    let mut i: usize = 0;
    assert(all.take(0) =~= Seq::<Seq<char>>::empty());
    while i < categories.len()
        invariant
            i <= categories@.len(),
            r <= i,
            all == texts(categories@),
            r == place_of(all.take(i as int), name@),
        decreases categories@.len() - i,
    {
        assert(all.take(i + 1).drop_last() =~= all.take(i as int));
        assert(all.take(i + 1).last() == categories@[i as int]@);
        if same_text(categories[i].as_str(), name) {
            r = i;
        } else if r >= i {
            r = i + 1;
        }
        i += 1;
    }
    assert(all.take(i as int) =~= all);
    r
}

/// Keys of two entries are compared entry by entry.
proof fn lemma_pair_key(a: Seq<i128>, b: Seq<i128>)
    requires
        a.len() == 2,
        b.len() == 2,
    ensures
        key_lt(a, b) <==> a[0] < b[0] || (a[0] == b[0] && a[1] < b[1]),
{
    reveal_with_fuel(key_lt, 3);
}

/// How many events are better than event `i` in its category, where events of one category
/// have the same group number.
fn better_count(events: &Vec<MemoryEvent>, numbers: &Vec<usize>, i: usize) -> (r: usize)
    requires
        i < events@.len(),
        numbers@.len() == events@.len(),
        forall|a: int, b: int|
            0 <= a < numbers@.len() && 0 <= b < numbers@.len() ==> ((#[trigger] numbers@[a])
                == (#[trigger] numbers@[b]) <==> category_of(events@[a]@) == category_of(
                events@[b]@,
            )),
    ensures
        r == count_better(event_views(events@), i as int, events@.len() as int),
{
    let ghost ev = event_views(events@);
    let own: i128 = events[i].salience.negated_rank();
    let mut n: usize = 0;
    let mut count: usize = 0;
    while n < events.len()
        invariant
            n <= events@.len(),
            i < events@.len(),
            count <= n,
            ev == event_views(events@),
            own == -ev[i as int].salience.rank(),
            numbers@.len() == events@.len(),
            forall|a: int, b: int|
                0 <= a < numbers@.len() && 0 <= b < numbers@.len() ==> ((#[trigger] numbers@[a])
                    == (#[trigger] numbers@[b]) <==> category_of(events@[a]@) == category_of(
                    events@[b]@,
                )),
            count == count_better(ev, i as int, n as int),
        decreases events@.len() - n,
    {
        let other: i128 = events[n].salience.negated_rank();
        assert(ev[n as int] == events@[n as int]@ && ev[i as int] == events@[i as int]@);
        if numbers[n] == numbers[i] && (other < own || (other == own && n < i)) {
            count += 1;
        }
        n += 1;
    }
    count
}

/// The numbers of the events that stand for their categories: the most salient ones of each,
/// `max` at most, in the order of the categories.
pub fn select_representatives(
    events: &Vec<MemoryEvent>,
    categories: &Vec<String>,
    max: usize,
) -> (r: Vec<usize>)
    ensures
        is_selection(
            event_views(events@),
            texts(categories@),
            max as nat,
            r@.map_values(|k: usize| k as int),
        ),
{
    let ghost ev = event_views(events@);
    let ghost cats = texts(categories@);
    let groups = category_groups(events);
    let ghost gv = group_views(groups@);
    let numbers = group_numbers(events, &groups);
    proof {
        assert forall|a: int, b: int|
            0 <= a < numbers@.len() && 0 <= b < numbers@.len() implies ((#[trigger] numbers@[a])
            == (#[trigger] numbers@[b]) <==> category_of(events@[a]@) == category_of(
            events@[b]@,
        )) by {
            let x = numbers@[a] as int;
            let y = numbers@[b] as int;
            lemma_lex_irreflexive(gv[x].0);
            if x < y {
                assert(lex_lt(gv[x].0, gv[y].0));
            } else if y < x {
                assert(lex_lt(gv[y].0, gv[x].0));
            }
        }
    }
    let mut list: Vec<usize> = Vec::new();
    let mut keys: Vec<Vec<i128>> = Vec::new();
    let mut g: usize = 0;
    while g < groups.len()
        invariant
            g <= groups@.len(),
            ev == event_views(events@),
            cats == texts(categories@),
            gv == group_views(groups@),
            numbers@.len() == events@.len(),
            forall|a: int, b: int|
                0 <= a < numbers@.len() && 0 <= b < numbers@.len() ==> ((#[trigger] numbers@[a])
                    == (#[trigger] numbers@[b]) <==> category_of(events@[a]@) == category_of(
                    events@[b]@,
                )),
            chosen_list(ev, cats, max as nat, list@, key_seqs(keys@), numbers@, g as int, 0),
        decreases groups@.len() - g,
    {
        let mut i: usize = 0;
        while i < events.len()
            invariant
                g < groups@.len(),
                i <= events@.len(),
                ev == event_views(events@),
                cats == texts(categories@),
                gv == group_views(groups@),
                numbers@.len() == events@.len(),
                forall|a: int, b: int|
                    0 <= a < numbers@.len() && 0 <= b < numbers@.len() ==> ((#[trigger] numbers@[a])
                        == (#[trigger] numbers@[b]) <==> category_of(events@[a]@) == category_of(
                        events@[b]@,
                    )),
                chosen_list(
                    ev,
                    cats,
                    max as nat,
                    list@,
                    key_seqs(keys@),
                    numbers@,
                    g as int,
                    i as int,
                ),
            decreases events@.len() - i,
        {
            let ghost list0 = list@;
            let ghost keys0 = key_seqs(keys@);
            let mut pushed = false;
            if numbers[i] == g {
                let count: usize = better_count(events, &numbers, i);
                if count < max {
                    let name = extract_primary_category(&events[i]);
                    let place: usize = find_place(categories, name.as_str());
                    let mut key: Vec<i128> = Vec::new();
                    key.push(place as i128);
                    key.push(events[i].salience.negated_rank());
                    let ghost kv = key@;
                    list.push(i);
                    keys.push(key);
                    pushed = true;
                    assert(key_seqs(keys@) =~= keys0.push(kv));
                    assert(kv =~= selection_key(ev, cats, i as int));
                }
            }
            proof {
                lemma_chosen_step(
                    ev,
                    cats,
                    max as nat,
                    list0,
                    keys0,
                    numbers@,
                    g as int,
                    i as int,
                    pushed,
                );
            }
            i += 1;
        }
        g += 1;
    }
    let p = stable_order(&keys);
    let ghost ks = key_seqs(keys@);
    let mut r: Vec<usize> = Vec::new();
    let mut a: usize = 0;
    while a < p.len()
        invariant
            a <= p@.len(),
            lists_all(p@, ks.len() as int),
            ks.len() == list@.len(),
            r@.len() == a,
            forall|b: int| 0 <= b < a ==> #[trigger] r@[b] == list@[p@[b] as int],
        decreases p@.len() - a,
    {
        assert(0 <= p@[a as int] < list@.len());
        r.push(list[p[a]]);
        a += 1;
    }
    proof {
        let rv = r@.map_values(|k: usize| k as int);
        assert(categories@.len() == categories.len());
        lemma_selection(
            ev,
            cats,
            max as nat,
            list@,
            ks,
            numbers@,
            gv,
            p@,
            rv,
        );
    }
    r
}

/// The key by which an event is ordered.
pub open spec fn selection_key(
    events: Seq<EventView>,
    categories: Seq<Seq<char>>,
    i: int,
) -> Seq<i128> {
    seq![
        place_of(categories, category_of(events[i])) as i128,
        (-events[i].salience.rank()) as i128,
    ]
}

/// Whether `list` holds the events that stand out of the groups before `g`, and of group `g`
/// those before event `i`, by group and then by position, and `keys` their keys.
spec fn chosen_list(
    events: Seq<EventView>,
    categories: Seq<Seq<char>>,
    max: nat,
    list: Seq<usize>,
    keys: Seq<Seq<i128>>,
    numbers: Seq<usize>,
    g: int,
    i: int,
) -> bool {
    &&& keys.len() == list.len()
    &&& numbers.len() == events.len()
    &&& forall|a: int|
        0 <= a < list.len() ==> {
            &&& (#[trigger] list[a]) < events.len()
            &&& stands_out(events, max, list[a] as int)
            &&& keys[a] == selection_key(events, categories, list[a] as int)
            &&& numbers[list[a] as int] < g || (numbers[list[a] as int] == g && list[a] < i)
        }
    &&& forall|k: int|
        0 <= k < events.len() && #[trigger] stands_out(events, max, k) && (numbers[k] < g || (
        numbers[k] == g && k < i)) ==> exists|a: int|
            0 <= a < list.len() && #[trigger] list[a] == k
    &&& forall|a: int, b: int|
        0 <= a < b < list.len() ==> numbers[#[trigger] list[a] as int]
            < numbers[#[trigger] list[b] as int] || (numbers[list[a] as int]
            == numbers[list[b] as int] && list[a] < list[b])
}

/// One more event is looked at.
proof fn lemma_chosen_step(
    events: Seq<EventView>,
    categories: Seq<Seq<char>>,
    max: nat,
    list: Seq<usize>,
    keys: Seq<Seq<i128>>,
    numbers: Seq<usize>,
    g: int,
    i: int,
    pushed: bool,
)
    requires
        chosen_list(events, categories, max, list, keys, numbers, g, i),
        0 <= i < events.len(),
        i <= usize::MAX,
        pushed <==> numbers[i] == g && stands_out(events, max, i),
    ensures
        pushed ==> chosen_list(
            events,
            categories,
            max,
            list.push(i as usize),
            keys.push(selection_key(events, categories, i)),
            numbers,
            g,
            i + 1,
        ),
        !pushed ==> chosen_list(events, categories, max, list, keys, numbers, g, i + 1),
        i + 1 == events.len() && pushed ==> chosen_list(
            events,
            categories,
            max,
            list.push(i as usize),
            keys.push(selection_key(events, categories, i)),
            numbers,
            g + 1,
            0,
        ),
        i + 1 == events.len() && !pushed ==> chosen_list(
            events,
            categories,
            max,
            list,
            keys,
            numbers,
            g + 1,
            0,
        ),
{
    if pushed {
        let more = list.push(i as usize);
        assert forall|k: int|
            0 <= k < events.len() && #[trigger] stands_out(events, max, k) && (numbers[k] < g || (
            numbers[k] == g && k < i + 1)) implies exists|a: int|
            0 <= a < more.len() && #[trigger] more[a] == k by {
            if k == i && numbers[k] == g {
                assert(more[list.len() as int] == k);
            } else {
                let a = choose|a: int| 0 <= a < list.len() && #[trigger] list[a] == k;
                assert(more[a] == k);
            }
        }
    }
}

/// The list of what was chosen, in the order of its keys, is a selection.
proof fn lemma_selection(
    events: Seq<EventView>,
    categories: Seq<Seq<char>>,
    max: nat,
    list: Seq<usize>,
    keys: Seq<Seq<i128>>,
    numbers: Seq<usize>,
    groups: Seq<(Seq<char>, Seq<int>)>,
    p: Seq<usize>,
    r: Seq<int>,
)
    requires
        chosen_list(events, categories, max, list, keys, numbers, groups.len() as int, 0),
        forall|i: int|
            0 <= i < numbers.len() ==> (#[trigger] numbers[i]) < groups.len()
                && groups[numbers[i] as int].0 == category_of(events[i]),
        forall|a: int, b: int|
            0 <= a < b < groups.len() ==> lex_lt(
                (#[trigger] groups[a]).0,
                (#[trigger] groups[b]).0,
            ),
        ordered_by(p, keys),
        r.len() == p.len(),
        forall|b: int| 0 <= b < r.len() ==> #[trigger] r[b] == list[p[b] as int],
        categories.len() <= usize::MAX,
    ensures
        is_selection(events, categories, max, r),
{
    assert forall|i: int| 0 <= i < events.len() && #[trigger] stands_out(
        events,
        max,
        i,
    ) implies r.contains(i) by {
        assert(numbers[i] < groups.len());
        let a = choose|a: int| 0 <= a < list.len() && #[trigger] list[a] == i;
        lemma_lists_all(p, keys.len() as int, a);
        let b = choose|b: int| 0 <= b < p.len() && #[trigger] p[b] == a;
        assert(r[b] == i);
    }
    assert forall|a: int, b: int| 0 <= a < b < r.len() implies comes_before(
        events,
        categories,
        #[trigger] r[a],
        #[trigger] r[b],
    ) by {
        let x = p[a] as int;
        let y = p[b] as int;
        let i = list[x] as int;
        let j = list[y] as int;
        assert(r[a] == i && r[b] == j);
        assert(record_before(keys, x, y));
        lemma_pair_key(keys[x], keys[y]);
        lemma_place(categories, category_of(events[i]));
        lemma_place(categories, category_of(events[j]));
        assert(keys[x] == selection_key(events, categories, i));
        assert(keys[y] == selection_key(events, categories, j));
        assert(keys[x][0] == place_of(categories, category_of(events[i])));
        assert(keys[y][0] == place_of(categories, category_of(events[j])));
        assert(keys[x][1] == -events[i].salience.rank());
        assert(keys[y][1] == -events[j].salience.rank());
        if !key_lt(keys[x], keys[y]) {
            assert(x < y);
            assert(list[x] == i && list[y] == j);
            if numbers[i] < numbers[j] {
                assert(lex_lt(groups[numbers[i] as int].0, groups[numbers[j] as int].0));
            }
        }
    }
    assert forall|a: int| 0 <= a < r.len() implies 0 <= #[trigger] r[a] < events.len()
        && stands_out(events, max, r[a]) by {
        assert(0 <= p[a] < list.len());
        assert(list[p[a] as int] < events.len());
    }
}

/// The place of a category is one of the places, or the one behind them.
proof fn lemma_place(categories: Seq<Seq<char>>, name: Seq<char>)
    ensures
        0 <= place_of(categories, name) <= categories.len(),
    decreases categories.len(),
{
    if categories.len() > 0 {
        lemma_place(categories.drop_last(), name);
    }
}

/// An event that stands for its category: what of it tells about a person.
#[derive(Debug, Clone)]
pub struct RepresentativeEvent {
    pub title: String,
    pub summary: String,
    pub attitude: Option<String>,
    pub valence: Real,
    pub salience: Real,
    pub category: String,
}

/// What a `RepresentativeEvent` says.
pub struct RepresentativeView {
    pub title: Seq<char>,
    pub summary: Seq<char>,
    pub attitude: Option<Seq<char>>,
    pub valence: Real,
    pub salience: Real,
    pub category: Seq<char>,
}

impl View for RepresentativeEvent {
    type V = RepresentativeView;

    open spec fn view(&self) -> RepresentativeView {
        RepresentativeView {
            title: self.title@,
            summary: self.summary@,
            attitude: opt_text(self.attitude),
            valence: self.valence,
            salience: self.salience,
            category: self.category@,
        }
    }
}

/// What of an event tells about a person.
pub open spec fn told_of(e: EventView) -> RepresentativeView {
    RepresentativeView {
        title: e.title,
        summary: e.summary,
        attitude: e.attitude,
        valence: e.valence,
        salience: e.salience,
        category: category_of(e),
    }
}

/// Whether `r` tells of the events that stand for their categories, in order.
pub open spec fn tells_selection(
    events: Seq<EventView>,
    categories: Seq<Seq<char>>,
    max: nat,
    r: Seq<RepresentativeEvent>,
) -> bool {
    exists|p: Seq<int>|
        #![trigger is_selection(events, categories, max, p)]
        is_selection(events, categories, max, p) && r.len() == p.len() && forall|a: int|
            0 <= a < r.len() ==> (#[trigger] r[a])@ == told_of(events[p[a]])
}

/// The events that stand for their categories.
pub fn select_representative_events(
    events: &Vec<MemoryEvent>,
    categories: &Vec<String>,
    max: usize,
) -> (r: Vec<RepresentativeEvent>)
    ensures
        tells_selection(event_views(events@), texts(categories@), max as nat, r@),
{
    let ghost ev = event_views(events@);
    let chosen = select_representatives(events, categories, max);
    let ghost p = chosen@.map_values(|k: usize| k as int);
    let mut out: Vec<RepresentativeEvent> = Vec::new();
    let mut a: usize = 0;
    while a < chosen.len()
        invariant
            a <= chosen@.len(),
            ev == event_views(events@),
            p == chosen@.map_values(|k: usize| k as int),
            is_selection(ev, texts(categories@), max as nat, p),
            out@.len() == a,
            forall|b: int| 0 <= b < a ==> (#[trigger] out@[b])@ == told_of(ev[p[b]]),
        decreases chosen@.len() - a,
    {
        assert(0 <= p[a as int] < ev.len());
        let e = &events[chosen[a]];
        out.push(
            RepresentativeEvent {
                title: copy_text(e.title.as_str()),
                summary: copy_text(e.summary.as_str()),
                attitude: copy_opt(&e.attitude),
                valence: e.valence,
                salience: e.salience,
                category: extract_primary_category(e),
            },
        );
        a += 1;
    }
    out
}

/// No event comes before itself, and coming before is transitive.
proof fn lemma_comes_before(
    events: Seq<EventView>,
    categories: Seq<Seq<char>>,
    i: int,
    j: int,
    k: int,
)
    ensures
        !comes_before(events, categories, i, i),
        comes_before(events, categories, i, j) && comes_before(events, categories, j, k)
            ==> comes_before(events, categories, i, k),
{
    let a = category_of(events[i]);
    let b = category_of(events[j]);
    let c = category_of(events[k]);
    lemma_lex_irreflexive(a);
    if lex_lt(a, b) && lex_lt(b, c) {
        lemma_lex_transitive(a, b, c);
    }
}

/// There is one selection only: what stands for the categories, and in which order, is fixed.
pub proof fn law_selection_is_unique(
    events: Seq<EventView>,
    categories: Seq<Seq<char>>,
    max: nat,
    p: Seq<int>,
    q: Seq<int>,
)
    requires
        is_selection(events, categories, max, p),
        is_selection(events, categories, max, q),
    ensures
        p == q,
{
    let lt = |i: int, j: int| comes_before(events, categories, i, j);
    assert forall|i: int| !#[trigger] lt(i, i) by {
        lemma_comes_before(events, categories, i, i, i);
    }
    assert forall|i: int, j: int, k: int| #[trigger] lt(i, j) && #[trigger] lt(j, k) implies lt(
        i,
        k,
    ) by {
        lemma_comes_before(events, categories, i, j, k);
    }
    assert forall|x: int| #[trigger] p.contains(x) <==> q.contains(x) by {
        if p.contains(x) {
            let a = choose|a: int| 0 <= a < p.len() && p[a] == x;
            assert(stands_out(events, max, p[a]));
        }
        if q.contains(x) {
            let a = choose|a: int| 0 <= a < q.len() && q[a] == x;
            assert(stands_out(events, max, q[a]));
        }
    }
    lemma_sorted_unique(p, q, lt);
}

/// A better event of the same category has fewer events that are better.
proof fn lemma_count_better(events: Seq<EventView>, i: int, j: int, n: int)
    requires
        0 <= i < events.len(),
        0 <= j < events.len(),
        0 <= n <= events.len(),
        category_of(events[i]) == category_of(events[j]),
        better(events, j, i),
    ensures
        count_better(events, j, n) <= count_better(events, i, n),
        j < n ==> count_better(events, j, n) < count_better(events, i, n),
    decreases n,
{
    if n > 0 {
        lemma_count_better(events, i, j, n - 1);
    }
}

/// The numbers of the events of a category among the first `n`.
spec fn numbers_in(events: Seq<EventView>, name: Seq<char>, n: int) -> Set<int> {
    Set::new(|i: int| 0 <= i < n && category_of(events[i]) == name)
}

/// The numbers of the events of a category among the first `n` that are better than event `i`.
spec fn better_in(events: Seq<EventView>, i: int, n: int) -> Set<int> {
    Set::new(
        |j: int|
            0 <= j < n && category_of(events[j]) == category_of(events[i]) && better(events, j, i),
    )
}

/// The number of events of a category.
pub open spec fn category_size(events: Seq<EventView>, name: Seq<char>) -> nat {
    events.filter(|e: EventView| category_of(e) == name).len()
}

proof fn lemma_category_size(events: Seq<EventView>, name: Seq<char>)
    ensures
        numbers_in(events, name, events.len() as int).finite(),
        numbers_in(events, name, events.len() as int).len() == category_size(events, name),
    decreases events.len(),
{
    reveal(Seq::filter);
    let n = events.len() as int;
    let s = numbers_in(events, name, n);
    if n == 0 {
        assert(s =~= Set::<int>::empty());
    } else {
        let rest = events.drop_last();
        lemma_category_size(rest, name);
        let t = numbers_in(rest, name, n - 1);
        assert forall|i: int| #[trigger] t.contains(i) <==> 0 <= i < n - 1 && category_of(events[i])
            == name by {
            if 0 <= i < n - 1 {
                assert(rest[i] == events[i]);
            }
        }
        if category_of(events[n - 1]) == name {
            assert(s =~= t.insert(n - 1));
        } else {
            assert(s =~= t);
        }
    }
}

proof fn lemma_better_number(events: Seq<EventView>, i: int, n: int)
    requires
        0 <= n <= events.len(),
    ensures
        better_in(events, i, n).finite(),
        better_in(events, i, n).len() == count_better(events, i, n),
    decreases n,
{
    let s = better_in(events, i, n);
    if n == 0 {
        assert(s =~= Set::<int>::empty());
    } else {
        lemma_better_number(events, i, n - 1);
        let t = better_in(events, i, n - 1);
        if category_of(events[n - 1]) == category_of(events[i]) && better(events, n - 1, i) {
            assert(s =~= t.insert(n - 1));
        } else {
            assert(s =~= t);
        }
    }
}

/// The events of a category that stand out.
spec fn chosen_in(events: Seq<EventView>, max: nat, name: Seq<char>) -> Set<int> {
    Set::new(
        |i: int|
            0 <= i < events.len() && category_of(events[i]) == name && stands_out(events, max, i),
    )
}

/// As many events stand out in a category as may, or all of them.
proof fn lemma_chosen_number(events: Seq<EventView>, max: nat, name: Seq<char>)
    ensures
        chosen_in(events, max, name).finite(),
        chosen_in(events, max, name).len() == (if category_size(events, name) < max {
            category_size(events, name)
        } else {
            max
        }),
{
    let n = events.len() as int;
    let all = numbers_in(events, name, n);
    let s = chosen_in(events, max, name);
    let f = |i: int| count_better(events, i, n) as int;
    let m = category_size(events, name) as int;
    lemma_category_size(events, name);
    assert(vstd::relations::injective_on(f, all)) by {
        assert forall|i: int, j: int| all.contains(i) && all.contains(j) && #[trigger] f(i)
            == #[trigger] f(j) implies i == j by {
            if i != j {
                if better(events, j, i) {
                    lemma_count_better(events, i, j, n);
                } else {
                    assert(better(events, i, j));
                    lemma_count_better(events, j, i, n);
                }
            }
        }
    }
    let image = all.map(f);
    vstd::set_lib::lemma_map_size(all, image, f);
    let range = vstd::set_lib::set_int_range(0, m);
    vstd::set_lib::lemma_int_range(0, m);
    assert forall|x: int| image.contains(x) implies #[trigger] range.contains(x) by {
        let i = choose|i: int| all.contains(i) && f(i) == x;
        lemma_better_number(events, i, n);
        let b = better_in(events, i, n);
        assert(!b.contains(i));
        assert(b.subset_of(all.remove(i)));
        vstd::set_lib::lemma_len_subset(b, all.remove(i));
    }
    vstd::set_lib::lemma_subset_equality(image, range);
    let least: int = if m < max {
        m
    } else {
        max as int
    };
    let first = vstd::set_lib::set_int_range(0, least);
    vstd::set_lib::lemma_int_range(0, least);
    assert(s.subset_of(all));
    vstd::set_lib::lemma_len_subset(s, all);
    assert(vstd::relations::injective_on(f, s)) by {
        assert forall|i: int, j: int| s.contains(i) && s.contains(j) && #[trigger] f(i)
            == #[trigger] f(j) implies i == j by {
            assert(all.contains(i) && all.contains(j));
        }
    }
    assert forall|x: int| s.map(f).contains(x) <==> #[trigger] first.contains(x) by {
        if s.map(f).contains(x) {
            let i = choose|i: int| s.contains(i) && f(i) == x;
            assert(all.contains(i));
            assert(image.contains(x));
            assert(range.contains(x));
        }
        if first.contains(x) {
            assert(range.contains(x));
            assert(image.contains(x));
            let i = choose|i: int| all.contains(i) && f(i) == x;
            assert(s.contains(i));
        }
    }
    assert(s.map(f) =~= first);
    vstd::set_lib::lemma_map_size(s, first, f);
}

/// The numbers that a filter keeps are those of the sequence that it accepts, each once if each
/// stands there once.
proof fn lemma_filter_numbers(r: Seq<int>, keep: spec_fn(int) -> bool)
    requires
        r.no_duplicates(),
    ensures
        r.filter(keep).no_duplicates(),
        forall|x: int| #[trigger] r.filter(keep).contains(x) <==> r.contains(x) && keep(x),
    decreases r.len(),
{
    reveal(Seq::filter);
    if r.len() > 0 {
        let rest = r.drop_last();
        let x = r.last();
        lemma_filter_numbers(rest, keep);
        let f = rest.filter(keep);
        let g = r.filter(keep);
        assert forall|y: int| #[trigger] g.contains(y) <==> r.contains(y) && keep(y) by {
            if g.contains(y) {
                let i = choose|i: int| 0 <= i < g.len() && g[i] == y;
                if i < f.len() {
                    assert(f[i] == y);
                    assert(f.contains(y));
                    let j = choose|j: int| 0 <= j < rest.len() && rest[j] == y;
                    assert(r[j] == y);
                } else {
                    assert(r[r.len() - 1] == y);
                }
            }
            if r.contains(y) && keep(y) {
                let j = choose|j: int| 0 <= j < r.len() && r[j] == y;
                if j < rest.len() {
                    assert(rest[j] == y);
                    assert(f.contains(y));
                    let i = choose|i: int| 0 <= i < f.len() && f[i] == y;
                    assert(g[i] == y);
                } else {
                    assert(g[f.len() as int] == y);
                }
            }
        }
        assert forall|i: int, j: int| 0 <= i < g.len() && 0 <= j < g.len() && i != j implies g[i]
            != g[j] by {
            if i < f.len() && j < f.len() {
                assert(f[i] != f[j]);
            } else if i < f.len() {
                assert(f.contains(f[i]));
                let m = choose|m: int| 0 <= m < rest.len() && rest[m] == f[i];
                assert(r[m] != r[r.len() - 1]);
            } else {
                assert(f.contains(f[j]));
                let m = choose|m: int| 0 <= m < rest.len() && rest[m] == f[j];
                assert(r[m] != r[r.len() - 1]);
            }
        }
    } else {
        assert(r.filter(keep) =~= Seq::<int>::empty());
    }
}

/// Every category is stood for by as many of its events as may, or by all of them where there
/// are fewer.
pub proof fn law_selection_is_full(
    events: Seq<EventView>,
    categories: Seq<Seq<char>>,
    max: nat,
    name: Seq<char>,
    r: Seq<int>,
)
    requires
        is_selection(events, categories, max, r),
    ensures
        r.filter(|i: int| category_of(events[i]) == name).len() == (if category_size(events, name)
            < max {
            category_size(events, name)
        } else {
            max
        }),
{
    let keep = |i: int| category_of(events[i]) == name;
    assert forall|a: int, b: int| 0 <= a < r.len() && 0 <= b < r.len() && a != b implies r[a]
        != r[b] by {
        lemma_lex_irreflexive(category_of(events[r[a]]));
        if a < b {
            assert(comes_before(events, categories, r[a], r[b]));
        } else {
            assert(comes_before(events, categories, r[b], r[a]));
        }
    }
    lemma_filter_numbers(r, keep);
    let f = r.filter(keep);
    f.unique_seq_to_set();
    assert(f.to_set() =~= chosen_in(events, max, name)) by {
        assert forall|i: int| f.to_set().contains(i) <==> #[trigger] chosen_in(
            events,
            max,
            name,
        ).contains(i) by {
            assert(f.to_set().contains(i) <==> f.contains(i));
        }
    }
    lemma_chosen_number(events, max, name);
}

/// The most salient events stand for a category: none that was left out is more salient than a
/// chosen one, and of two that are as salient the earlier one is chosen first.
pub proof fn law_most_salient_are_chosen(
    events: Seq<EventView>,
    categories: Seq<Seq<char>>,
    max: nat,
    r: Seq<int>,
    i: int,
    j: int,
)
    requires
        is_selection(events, categories, max, r),
        r.contains(i),
        0 <= j < events.len(),
        !r.contains(j),
        category_of(events[i]) == category_of(events[j]),
    ensures
        events[j].salience.rank() <= events[i].salience.rank(),
        events[j].salience.rank() == events[i].salience.rank() ==> i < j,
{
    let n = events.len() as int;
    let a = choose|a: int| 0 <= a < r.len() && r[a] == i;
    assert(0 <= r[a] < events.len() && stands_out(events, max, r[a]));
    assert(!stands_out(events, max, j));
    if better(events, j, i) {
        lemma_count_better(events, i, j, n);
    }
}

/// Only events of the input are chosen, none twice.
pub proof fn law_chosen_once(
    events: Seq<EventView>,
    categories: Seq<Seq<char>>,
    max: nat,
    r: Seq<int>,
)
    requires
        is_selection(events, categories, max, r),
    ensures
        r.no_duplicates(),
        forall|a: int| 0 <= a < r.len() ==> 0 <= #[trigger] r[a] < events.len(),
{
    assert forall|a: int, b: int| 0 <= a < r.len() && 0 <= b < r.len() && a != b implies r[a]
        != r[b] by {
        lemma_lex_irreflexive(category_of(events[r[a]]));
        if a < b {
            assert(comes_before(events, categories, r[a], r[b]));
        } else {
            assert(comes_before(events, categories, r[b], r[a]));
        }
    }
}

/// The place of a category is the last one where it is named; one that is not named is behind
/// all others.
proof fn lemma_place_of(categories: Seq<Seq<char>>, name: Seq<char>)
    ensures
        0 <= place_of(categories, name) <= categories.len(),
        place_of(categories, name) < categories.len() ==> categories[place_of(categories, name)]
            == name,
        forall|k: int|
            place_of(categories, name) < k < categories.len() ==> #[trigger] categories[k] != name,
        place_of(categories, name) == categories.len() ==> !categories.contains(name),
    decreases categories.len(),
{
    if categories.len() > 0 {
        let rest = categories.drop_last();
        lemma_place_of(rest, name);
        if categories.last() != name {
            assert forall|k: int| place_of(categories, name) < k < categories.len() implies
                #[trigger] categories[k] != name by {
                if k < rest.len() {
                    assert(rest[k] == categories[k]);
                }
            }
            if categories.contains(name) {
                let k = choose|k: int| 0 <= k < categories.len() && categories[k] == name;
                assert(rest[k] == name);
            }
        }
    }
}

/// The chosen events come in the order of their categories, and within a category the more
/// salient one comes first; events of categories that are not listed come last.
pub proof fn law_chosen_in_order(
    events: Seq<EventView>,
    categories: Seq<Seq<char>>,
    max: nat,
    r: Seq<int>,
    a: int,
    b: int,
)
    requires
        is_selection(events, categories, max, r),
        categories.no_duplicates(),
        0 <= a < b < r.len(),
    ensures
        ({
            let x = category_of(events[r[a]]);
            let y = category_of(events[r[b]]);
            &&& x == y ==> events[r[a]].salience.rank() >= events[r[b]].salience.rank()
            &&& x == y && events[r[a]].salience.rank() == events[r[b]].salience.rank() ==> r[a]
                < r[b]
            &&& categories.contains(y) ==> categories.contains(x)
            &&& forall|k: int, m: int|
                0 <= k < categories.len() && 0 <= m < categories.len() && #[trigger] categories[k]
                    == x && #[trigger] categories[m] == y ==> k <= m
        }),
{
    let x = category_of(events[r[a]]);
    let y = category_of(events[r[b]]);
    assert(comes_before(events, categories, r[a], r[b]));
    lemma_place_of(categories, x);
    lemma_place_of(categories, y);
    lemma_lex_irreflexive(x);
    if categories.contains(y) {
        let m = choose|m: int| 0 <= m < categories.len() && categories[m] == y;
        assert(place_of(categories, y) < categories.len());
        assert(categories[place_of(categories, x)] == x);
    }
    assert forall|k: int, m: int|
        0 <= k < categories.len() && 0 <= m < categories.len() && #[trigger] categories[k] == x
            && #[trigger] categories[m] == y implies k <= m by {
        let px = place_of(categories, x);
        let py = place_of(categories, y);
        assert(px < categories.len() && py < categories.len());
        assert(categories[px] == categories[k]);
        assert(categories[py] == categories[m]);
        assert(px == k && py == m);
    }
}

/// What is told of a chosen event is what the event says: its title, its summary, its attitude,
/// its valence and its salience.
pub proof fn law_chosen_are_told(e: EventView)
    ensures
        told_of(e).title == e.title,
        told_of(e).summary == e.summary,
        told_of(e).attitude == e.attitude,
        told_of(e).valence == e.valence,
        told_of(e).salience == e.salience,
        told_of(e).category == category_of(e),
{
}

/// What is told of the chosen events is told in their order, of each what it says.
pub proof fn law_selection_is_told(
    events: Seq<EventView>,
    categories: Seq<Seq<char>>,
    max: nat,
    r: Seq<RepresentativeEvent>,
) -> (p: Seq<int>)
    requires
        tells_selection(events, categories, max, r),
    ensures
        is_selection(events, categories, max, p),
        r.len() == p.len(),
        forall|a: int|
            0 <= a < r.len() ==> {
                &&& (#[trigger] r[a]).title@ == events[p[a]].title
                &&& r[a].summary@ == events[p[a]].summary
                &&& opt_text(r[a].attitude) == events[p[a]].attitude
                &&& r[a].valence == events[p[a]].valence
                &&& r[a].salience == events[p[a]].salience
                &&& r[a].category@ == category_of(events[p[a]])
            },
{
    choose|p: Seq<int>|
        #![trigger is_selection(events, categories, max, p)]
        is_selection(events, categories, max, p) && r.len() == p.len() && forall|a: int|
            0 <= a < r.len() ==> (#[trigger] r[a])@ == told_of(events[p[a]])
}

/// The place of a category is the last one at which it is listed; categories that are not listed
/// have the place behind all others.
pub proof fn law_last_place_counts(categories: Seq<Seq<char>>, name: Seq<char>)
    ensures
        0 <= place_of(categories, name) <= categories.len(),
        place_of(categories, name) < categories.len() <==> categories.contains(name),
        place_of(categories, name) < categories.len() ==> categories[place_of(categories, name)]
            == name,
        forall|k: int|
            place_of(categories, name) < k < categories.len() ==> #[trigger] categories[k] != name,
{
    lemma_place_of(categories, name);
    if place_of(categories, name) < categories.len() {
        assert(categories.contains(categories[place_of(categories, name)]));
    }
}

/// Chosen events of categories that are not listed come in the order of their salience, and of
/// those as salient in the order of the names of their categories.
pub proof fn law_unlisted_categories(
    events: Seq<EventView>,
    categories: Seq<Seq<char>>,
    max: nat,
    r: Seq<int>,
    a: int,
    b: int,
)
    requires
        is_selection(events, categories, max, r),
        0 <= a < b < r.len(),
        !categories.contains(category_of(events[r[a]])),
        !categories.contains(category_of(events[r[b]])),
    ensures
        events[r[a]].salience.rank() >= events[r[b]].salience.rank(),
        events[r[a]].salience.rank() == events[r[b]].salience.rank() ==> lex_lt(
            category_of(events[r[a]]),
            category_of(events[r[b]]),
        ) || (category_of(events[r[a]]) == category_of(events[r[b]]) && r[a] < r[b]),
{
    law_last_place_counts(categories, category_of(events[r[a]]));
    law_last_place_counts(categories, category_of(events[r[b]]));
}

/// Selecting leaves out no event that is more salient than a chosen one of the same category.
pub proof fn law_selecting_leaves_out_the_less_salient(
    events: &Vec<MemoryEvent>,
    categories: &Vec<String>,
    max: usize,
    r: Vec<usize>,
    i: usize,
    j: int,
)
    requires
        call_ensures(select_representatives, (events, categories, max), r),
        r@.contains(i),
        0 <= j < events@.len(),
        forall|a: int| 0 <= a < r@.len() ==> #[trigger] r@[a] != j,
    ensures
        i < events@.len(),
        category_of(events@[i as int]@) == category_of(events@[j]@) ==> events@[j].salience.rank()
            <= events@[i as int].salience.rank(),
{
    let views = event_views(events@);
    let p = r@.map_values(|k: usize| k as int);
    let a = choose|a: int| 0 <= a < r@.len() && r@[a] == i;
    assert(p[a] == i);
    assert(p.contains(i as int));
    assert(!p.contains(j)) by {
        if p.contains(j) {
            let b = choose|b: int| 0 <= b < p.len() && p[b] == j;
            assert(r@[b] == j);
        }
    }
    assert(views[i as int] == events@[i as int]@);
    assert(views[j] == events@[j]@);
    if category_of(views[i as int]) == category_of(views[j]) {
        law_most_salient_are_chosen(views, texts(categories@), max as nat, p, i as int, j);
    }
}

} // verus!
