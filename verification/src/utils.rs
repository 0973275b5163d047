//! Reading what a language model answers.

use vstd::prelude::*;

use crate::binary64::Real;
use crate::text::{append_chars, chars_of, occurs_at, occurs_in, part, stands_at, string_of, trim,
    trim_chars};

verus! {

/// The first position from `i` on at which `t` stands in `s`.
pub open spec fn find_from(s: Seq<char>, t: Seq<char>, i: int) -> Option<int>
    decreases s.len() + 1 - i,
{
    if i < 0 || i > s.len() {
        None
    } else if occurs_at(s, t, i) {
        Some(i)
    } else {
        find_from(s, t, i + 1)
    }
}

/// Where `find_from` points.
pub proof fn lemma_find_from(s: Seq<char>, t: Seq<char>, i: int)
    ensures
        match find_from(s, t, i) {
            Some(k) => i <= k && occurs_at(s, t, k),
            None => true,
        },
    decreases s.len() + 1 - i,
{
    if 0 <= i <= s.len() && !occurs_at(s, t, i) {
        lemma_find_from(s, t, i + 1);
    }
}

/// The first position from `i` on at which `t` stands in `v`.
fn find_part(v: &[char], t: &[char], i: usize) -> (r: Option<usize>)
    requires
        i <= v@.len(),
    ensures
        match r {
            Some(k) => find_from(v@, t@, i as int) == Some(k as int) && i <= k && k + t@.len()
                <= v@.len(),
            None => find_from(v@, t@, i as int) is None,
        },
{
    let n: usize = v.len();
    let mut k: usize = i;
    loop
        invariant
            i <= k <= n,
            n == v@.len(),
            find_from(v@, t@, i as int) == find_from(v@, t@, k as int),
        decreases n - k,
    {
        if stands_at(v, t, k) {
            return Some(k);
        }
        if k == n {
            assert(find_from(v@, t@, n + 1) is None);
            return None;
        }
        k += 1;
    }
}

/// What opens a passage of thinking.
pub open spec fn think_open() -> Seq<char> {
    "<think>"@
}

/// What closes a passage of thinking.
pub open spec fn think_close() -> Seq<char> {
    "</think>"@
}

/// `s` from position `i` on without the passages of thinking that are closed.
pub open spec fn unthought_from(s: Seq<char>, i: int) -> Seq<char>
    decreases s.len() - i,
{
    if i < 0 || i > s.len() {
        Seq::empty()
    } else {
        match find_from(s, think_open(), i) {
            Some(a) => match find_from(s, think_close(), a) {
                Some(b) => {
                    proof {
                        reveal_strlit("</think>");
                        lemma_find_from(s, think_open(), i);
                        lemma_find_from(s, think_close(), a);
                    }
                    s.subrange(i, a) + unthought_from(s, b + think_close().len())
                },
                None => s.skip(i),
            },
            None => s.skip(i),
        }
    }
}

/// `s` without its closed passages of thinking, and trimmed.
pub open spec fn unthought(s: Seq<char>) -> Seq<char> {
    trim(unthought_from(s, 0))
}

/// The answer without the passages of thinking.
pub fn strip_thinking(raw: &str) -> (r: String)
    ensures
        r@ == unthought(raw@),
{
    let v = chars_of(raw);
    let open = chars_of("<think>");
    let close = chars_of("</think>");
    let n: usize = v.len();
    let mut out: Vec<char> = Vec::new();
    let mut i: usize = 0;
    let ghost goal = unthought_from(v@, 0);
    proof {
        reveal_strlit("<think>");
        reveal_strlit("</think>");
        assert(out@ + unthought_from(v@, 0) =~= goal);
    }
    loop
        invariant_except_break
            i <= n,
            n == v@.len(),
            open@ == think_open(),
            close@ == think_close(),
            close@.len() == 8,
            out@ + unthought_from(v@, i as int) == goal,
        ensures
            out@ == goal,
        decreases n - i,
    {
        let mut next: usize = n;
        let mut more = false;
        let mut cut: usize = n;
        if let Some(a) = find_part(&v, &open, i) {
            if let Some(b) = find_part(&v, &close, a) {
                next = b + close.len();
                cut = a;
                more = true;
            }
        }
        let ghost before = out@;
        let piece = part(&v, i, cut);
        append_chars(&mut out, &piece);
        if !more {
            assert(v@.subrange(i as int, n as int) =~= v@.skip(i as int));
            assert(out@ =~= goal);
            break;
        }
        assert(out@ + unthought_from(v@, next as int) =~= goal) by {
            assert(before + (v@.subrange(i as int, cut as int) + unthought_from(v@, next as int))
                =~= out@ + unthought_from(v@, next as int));
        }
        i = next;
    }
    let t = trim_chars(&out);
    string_of(&t)
}

/// The length of the object that is being read at the front of `s`, where `depth` braces
/// are open; braces inside of strings do not count.
pub open spec fn object_len(s: Seq<char>, depth: nat, in_string: bool, escaped: bool) -> Option<nat>
    decreases s.len(),
{
    if s.len() == 0 {
        None
    } else {
        let c = s[0];
        let rest = s.drop_first();
        let tail = if escaped {
            object_len(rest, depth, in_string, false)
        } else if in_string {
            object_len(rest, depth, c != '"', c == '\\')
        } else if c == '{' {
            object_len(rest, depth + 1, false, false)
        } else if c == '}' {
            if depth <= 1 {
                Some(0nat)
            } else {
                object_len(rest, (depth - 1) as nat, false, false)
            }
        } else {
            object_len(rest, depth, c == '"', false)
        };
        match tail {
            Some(n) => Some(n + 1),
            None => None,
        }
    }
}

/// The text from the first opening brace to the brace that closes it.
pub open spec fn first_object(s: Seq<char>) -> Option<Seq<char>> {
    match find_from(s, seq!['{'], 0) {
        Some(i) => match object_len(s.skip(i), 0, false, false) {
            Some(n) => Some(s.subrange(i, i + n)),
            None => None,
        },
        None => None,
    }
}

/// The text from the first opening brace to the brace that closes it.
pub fn extract_first_json_object(text: &str) -> (r: Option<String>)
    ensures
        match r {
            Some(s) => first_object(text@) == Some(s@),
            None => first_object(text@) is None,
        },
{
    let v = chars_of(text);
    let n: usize = v.len();
    let mut brace: Vec<char> = Vec::new();
    brace.push('{');
    assert(brace@ =~= seq!['{']);
    let start: usize = match find_part(&v, &brace, 0) {
        Some(i) => i,
        None => return None,
    };
    let mut i: usize = start;
    let mut depth: usize = 0;
    let mut in_string = false;
    let mut escaped = false;
    let ghost whole = object_len(v@.skip(start as int), 0, false, false);
    while i < n
        invariant
            start <= i <= n,
            n == v@.len(),
            depth <= i - start,
            whole == (match object_len(v@.skip(i as int), depth as nat, in_string, escaped) {
                Some(k) => Some((k + (i - start)) as nat),
                None => None,
            }),
            whole == object_len(v@.skip(start as int), 0, false, false),
            v@ == text@,
            find_from(v@, seq!['{'], 0) == Some(start as int),
        decreases n - i,
    {
        let c = v[i];
        assert(v@.skip(i as int).drop_first() =~= v@.skip(i + 1));
        assert(v@.skip(i as int)[0] == c);
        if escaped {
            escaped = false;
        } else if in_string {
            if c == '\\' {
                escaped = true;
            } else if c == '"' {
                in_string = false;
            }
        } else if c == '{' {
            depth += 1;
        } else if c == '}' {
            if depth <= 1 {
                let object = part(&v, start, i + 1);
                return Some(string_of(&object));
            }
            depth -= 1;
        } else if c == '"' {
            in_string = true;
        }
        i += 1;
    }
    assert(v@.skip(i as int) =~= Seq::empty());
    None
}

/// One of five levels, by the bit patterns of the bounds between them and of the levels.
pub open spec fn nearest_level(x: Real, bounds: (u64, u64, u64, u64), levels: (u64, u64, u64, u64,
    u64)) -> Real {
    if x.le(Real { bits: bounds.0 }) {
        Real { bits: levels.0 }
    } else if x.le(Real { bits: bounds.1 }) {
        Real { bits: levels.1 }
    } else if x.le(Real { bits: bounds.2 }) {
        Real { bits: levels.2 }
    } else if x.le(Real { bits: bounds.3 }) {
        Real { bits: levels.3 }
    } else {
        Real { bits: levels.4 }
    }
}

/// The level of valence nearest to `x`: minus one, minus a half, zero, a half or one. Half
/// way between two levels it is the lower one; what is not a number counts as zero.
pub open spec fn valence_level(x: Real) -> Real {
    if x.nan() {
        Real { bits: 0 }
    } else {
        nearest_level(
            x,
            (0xbfe8_0000_0000_0000, 0xbfd0_0000_0000_0000, 0x3fd0_0000_0000_0000, 0x3fe8_0000_0000_0000),
            (
                0xbff0_0000_0000_0000,
                0xbfe0_0000_0000_0000,
                0,
                0x3fe0_0000_0000_0000,
                0x3ff0_0000_0000_0000,
            ),
        )
    }
}

/// The level of salience nearest to `x`: zero, a quarter, a half, three quarters or one. Half
/// way between two levels it is the lower one; what is not a number counts as a half.
pub open spec fn salience_level(x: Real) -> Real {
    if x.nan() {
        Real { bits: 0x3fe0_0000_0000_0000 }
    } else {
        nearest_level(
            x,
            (0x3fc0_0000_0000_0000, 0x3fd8_0000_0000_0000, 0x3fe4_0000_0000_0000, 0x3fec_0000_0000_0000),
            (
                0,
                0x3fd0_0000_0000_0000,
                0x3fe0_0000_0000_0000,
                0x3fe8_0000_0000_0000,
                0x3ff0_0000_0000_0000,
            ),
        )
    }
}

/// The level of valence nearest to `x`.
pub fn clamp_valence(x: Real) -> (r: Real)
    ensures
        r == valence_level(x),
{
    if x.is_nan() {
        Real { bits: 0 }
    } else if x.is_at_most(&Real { bits: 0xbfe8_0000_0000_0000 }) {
        Real { bits: 0xbff0_0000_0000_0000 }
    } else if x.is_at_most(&Real { bits: 0xbfd0_0000_0000_0000 }) {
        Real { bits: 0xbfe0_0000_0000_0000 }
    } else if x.is_at_most(&Real { bits: 0x3fd0_0000_0000_0000 }) {
        Real { bits: 0 }
    } else if x.is_at_most(&Real { bits: 0x3fe8_0000_0000_0000 }) {
        Real { bits: 0x3fe0_0000_0000_0000 }
    } else {
        Real { bits: 0x3ff0_0000_0000_0000 }
    }
}

/// The level of salience nearest to `x`.
pub fn clamp_salience(x: Real) -> (r: Real)
    ensures
        r == salience_level(x),
{
    if x.is_nan() {
        Real { bits: 0x3fe0_0000_0000_0000 }
    } else if x.is_at_most(&Real { bits: 0x3fc0_0000_0000_0000 }) {
        Real { bits: 0 }
    } else if x.is_at_most(&Real { bits: 0x3fd8_0000_0000_0000 }) {
        Real { bits: 0x3fd0_0000_0000_0000 }
    } else if x.is_at_most(&Real { bits: 0x3fe4_0000_0000_0000 }) {
        Real { bits: 0x3fe0_0000_0000_0000 }
    } else if x.is_at_most(&Real { bits: 0x3fec_0000_0000_0000 }) {
        Real { bits: 0x3fe8_0000_0000_0000 }
    } else {
        Real { bits: 0x3ff0_0000_0000_0000 }
    }
}

/// A level is its own nearest level.
pub proof fn law_levels_are_fixed(x: Real)
    ensures
        valence_level(valence_level(x)) == valence_level(x),
        salience_level(salience_level(x)) == salience_level(x),
{
}

/// A higher number never has a lower level.
pub proof fn law_levels_are_monotone(x: Real, y: Real)
    requires
        x.le(y),
    ensures
        valence_level(x).le(valence_level(y)),
        salience_level(x).le(salience_level(y)),
{
}

/// The text that is being read as an object ends in a closing brace.
proof fn lemma_object_len(s: Seq<char>, depth: nat, in_string: bool, escaped: bool)
    ensures
        object_len(s, depth, in_string, escaped) matches Some(n) ==> 0 < n <= s.len() && s[n - 1]
            == '}',
    decreases s.len(),
{
    if s.len() > 0 {
        let c = s[0];
        let rest = s.drop_first();
        if escaped {
            lemma_object_len(rest, depth, in_string, false);
        } else if in_string {
            lemma_object_len(rest, depth, c != '"', c == '\\');
        } else if c == '{' {
            lemma_object_len(rest, depth + 1, false, false);
        } else if c == '}' {
            if depth > 1 {
                lemma_object_len(rest, (depth - 1) as nat, false, false);
            }
        } else {
            lemma_object_len(rest, depth, c == '"', false);
        }
    }
}

/// The object that is found in a text stands in it, and runs from an opening to a closing
/// brace.
pub proof fn law_object_is_braced(s: Seq<char>)
    ensures
        first_object(s) matches Some(o) ==> {
            &&& o.len() >= 2
            &&& o[0] == '{'
            &&& o.last() == '}'
            &&& occurs_in(s, o)
        },
{
    match find_from(s, seq!['{'], 0) {
        Some(i) => {
            lemma_find_from(s, seq!['{'], 0);
            lemma_object_len(s.skip(i), 0, false, false);
            assert(s.subrange(i, i + 1)[0] == '{');
            match object_len(s.skip(i), 0, false, false) {
                Some(n) => {
                    let o = s.subrange(i, i + n);
                    assert(occurs_at(s, o, i));
                    assert(s.skip(i)[n - 1] == '}');
                    assert(s.skip(i)[0] == '{');
                },
                None => {},
            }
        },
        None => {},
    }
}

/// A text without a passage of thinking is trimmed and otherwise left as it is.
pub proof fn law_no_thinking_stays(s: Seq<char>)
    requires
        !occurs_in(s, think_open()),
    ensures
        unthought(s) == trim(s),
{
    lemma_find_from(s, think_open(), 0);
    assert(find_from(s, think_open(), 0) is None) by {
        match find_from(s, think_open(), 0) {
            Some(k) => {
                assert(occurs_at(s, think_open(), k));
            },
            None => {},
        }
    }
    assert(s.skip(0) =~= s);
}

/// What is found is the first place from the given one on where the part stands; nothing is
/// found where it stands nowhere from there on.
pub proof fn law_first_is_found(s: Seq<char>, t: Seq<char>, i: int)
    requires
        0 <= i,
    ensures
        find_from(s, t, i) matches Some(k) ==> {
            &&& i <= k
            &&& k + t.len() <= s.len()
            &&& s.subrange(k, k + t.len()) == t
            &&& forall|j: int|
                i <= j < k && j + t.len() <= s.len() ==> #[trigger] s.subrange(j, j + t.len()) != t
        },
        find_from(s, t, i) is None ==> forall|j: int|
            i <= j && j + t.len() <= s.len() ==> #[trigger] s.subrange(j, j + t.len()) != t,
    decreases s.len() + 1 - i,
{
    if i <= s.len() && !occurs_at(s, t, i) {
        law_first_is_found(s, t, i + 1);
    }
}

/// Whether a part is found does not depend on what stands before the place from which on it is
/// looked for.
proof fn lemma_find_shift(s: Seq<char>, t: Seq<char>, i: int, k: int)
    requires
        0 <= i <= s.len(),
        0 <= k,
    ensures
        match find_from(s.skip(i), t, k) {
            Some(x) => find_from(s, t, i + k) == Some(i + x),
            None => find_from(s, t, i + k) is None,
        },
    decreases s.len() + 1 - i - k,
{
    let r = s.skip(i);
    if i + k <= s.len() {
        if 0 <= k && k + t.len() <= r.len() {
            assert(r.subrange(k, k + t.len()) =~= s.subrange(i + k, i + k + t.len()));
        }
        assert(occurs_at(r, t, k) == occurs_at(s, t, i + k));
        if !occurs_at(s, t, i + k) {
            lemma_find_shift(s, t, i, k + 1);
        }
    }
}

proof fn lemma_unthought_shift(s: Seq<char>, i: int, k: int)
    requires
        0 <= i <= s.len(),
        0 <= k <= s.len() - i,
    ensures
        unthought_from(s, i + k) == unthought_from(s.skip(i), k),
    decreases s.len() - i - k,
{
    let r = s.skip(i);
    lemma_find_shift(s, think_open(), i, k);
    lemma_find_from(r, think_open(), k);
    match find_from(r, think_open(), k) {
        Some(a) => {
            lemma_find_shift(s, think_close(), i, a);
            lemma_find_from(r, think_close(), a);
            match find_from(r, think_close(), a) {
                Some(b) => {
                    reveal_strlit("</think>");
                    assert(r.subrange(k, a) =~= s.subrange(i + k, i + a));
                    lemma_unthought_shift(s, i, b + think_close().len());
                },
                None => {
                    assert(r.skip(k) =~= s.skip(i + k));
                },
            }
        },
        None => {
            assert(r.skip(k) =~= s.skip(i + k));
        },
    }
}

/// What stands before the first passage of thinking stays, the passage goes, and what stands
/// behind it is treated in the same way; at the end the spaces round all of it go.
pub proof fn law_thinking_is_left_out(a: Seq<char>, t: Seq<char>, b: Seq<char>)
    requires
        ({
            let s = a + "<think>"@ + t + "</think>"@ + b;
            &&& forall|i: int| 0 <= i < a.len() ==> #[trigger] s.subrange(i, i + 7) != "<think>"@
            &&& forall|i: int|
                a.len() <= i < a.len() + 7 + t.len() ==> #[trigger] s.subrange(i, i + 8)
                    != "</think>"@
        }),
    ensures
        unthought_from(a + "<think>"@ + t + "</think>"@ + b, 0) == a + unthought_from(b, 0),
        unthought(a + "<think>"@ + t + "</think>"@ + b) == trim(a + unthought_from(b, 0)),
{
    reveal_strlit("<think>");
    reveal_strlit("</think>");
    let s = a + "<think>"@ + t + "</think>"@ + b;
    let x = a.len() as int;
    let y = x + 7 + t.len();
    assert(s.subrange(x, x + 7) =~= "<think>"@);
    assert(s.subrange(y, y + 8) =~= "</think>"@);
    lemma_find_is_first(s, "<think>"@, 0, x);
    lemma_find_is_first(s, "</think>"@, x, y);
    assert(s.subrange(0, x) =~= a);
    lemma_unthought_shift(s, y + 8, 0);
    assert(s.skip(y + 8) =~= b);
}

/// A passage of thinking that does not end stays, but for the spaces round the text.
pub proof fn law_unfinished_thinking_stays(a: Seq<char>, b: Seq<char>)
    requires
        ({
            let s = a + "<think>"@ + b;
            &&& forall|i: int| 0 <= i < a.len() ==> #[trigger] s.subrange(i, i + 7) != "<think>"@
            &&& forall|i: int|
                a.len() <= i && i + 8 <= s.len() ==> #[trigger] s.subrange(i, i + 8) != "</think>"@
        }),
    ensures
        unthought(a + "<think>"@ + b) == trim(a + "<think>"@ + b),
{
    reveal_strlit("<think>");
    reveal_strlit("</think>");
    let s = a + "<think>"@ + b;
    let x = a.len() as int;
    assert(s.subrange(x, x + 7) =~= "<think>"@);
    lemma_find_is_first(s, "<think>"@, 0, x);
    lemma_find_from(s, "</think>"@, x);
    assert(s.skip(0) =~= s);
}

proof fn lemma_find_is_first(s: Seq<char>, t: Seq<char>, i: int, k: int)
    requires
        0 <= i <= k,
        k + t.len() <= s.len(),
        s.subrange(k, k + t.len()) == t,
        forall|j: int| i <= j < k ==> #[trigger] s.subrange(j, j + t.len()) != t,
    ensures
        find_from(s, t, i) == Some(k),
    decreases k - i,
{
    if i < k {
        assert(s.subrange(i, i + t.len()) != t);
        lemma_find_is_first(s, t, i + 1, k);
    }
}

/// An object begins at the first opening brace of a text; a text without one has no object.
pub proof fn law_object_begins_at_first_brace(a: Seq<char>, s: Seq<char>)
    requires
        !a.contains('{'),
        s.len() > 0 ==> s[0] == '{',
    ensures
        first_object(a + s) == first_object(s),
        s.len() == 0 ==> first_object(s) is None,
{
    let brace = seq!['{'];
    if s.len() > 0 {
        let all = a + s;
        let n = a.len() as int;
        assert(s.subrange(0, 1) =~= brace);
        assert(all.subrange(n, n + 1) =~= brace);
        assert forall|j: int| 0 <= j < n implies #[trigger] all.subrange(j, j + brace.len())
            != brace by {
            assert(all.subrange(j, j + 1)[0] == a[j]);
        }
        lemma_find_is_first(all, brace, 0, n);
        lemma_find_is_first(s, brace, 0, 0);
        assert(all.skip(n) =~= s);
        assert(s.skip(0) =~= s);
        match object_len(s, 0, false, false) {
            Some(m) => {
                lemma_object_len(s, 0, false, false);
                assert(all.subrange(n, n + m) =~= s.subrange(0, m as int));
            },
            None => {},
        }
    } else {
        let all = a + s;
        assert(all =~= a);
        law_first_is_found(a, brace, 0);
        law_first_is_found(s, brace, 0);
        match find_from(a, brace, 0) {
            Some(k) => {
                assert(a.subrange(k, k + 1)[0] == a[k]);
                assert(brace[0] == '{');
            },
            None => {},
        }
    }
}

/// In a text without quotes an object ends where its braces match: it has as many closing braces
/// as opening ones, and no beginning of it has. Where they never match there is no object.
pub proof fn law_braces_match(s: Seq<char>)
    requires
        s.len() > 0,
        s[0] == '{',
        !s.contains('"'),
    ensures
        first_object(s) matches Some(o) ==> {
            &&& o.len() <= s.len()
            &&& o == s.take(o.len() as int)
            &&& o.filter(|c: char| c == '{').len() == o.filter(|c: char| c == '}').len()
            &&& forall|k: int|
                0 < k < o.len() ==> (#[trigger] s.take(k)).filter(|c: char| c == '{').len()
                    > s.take(k).filter(|c: char| c == '}').len()
        },
        first_object(s) is None ==> forall|k: int|
            0 < k <= s.len() ==> (#[trigger] s.take(k)).filter(|c: char| c == '{').len() > s.take(
                k,
            ).filter(|c: char| c == '}').len(),
{
    let brace = seq!['{'];
    let rest = s.drop_first();
    assert(s.subrange(0, 1) =~= brace);
    lemma_find_is_first(s, brace, 0, 0);
    assert(s.skip(0) =~= s);
    assert(!rest.contains('"')) by {
        if rest.contains('"') {
            let i = choose|i: int| 0 <= i < rest.len() && rest[i] == '"';
            assert(s[i + 1] == '"');
        }
    }
    lemma_balance(rest, 1);
    lemma_object_len(rest, 1, false, false);
    match object_len(rest, 1, false, false) {
        Some(n) => {
            let o = s.subrange(0, n as int + 1);
            assert(o =~= s.take(n as int + 1));
            lemma_count_first(s, n as int + 1);
            assert forall|k: int| 0 < k < n + 1 implies (#[trigger] s.take(k)).filter(
                |c: char| c == '{',
            ).len() > s.take(k).filter(|c: char| c == '}').len() by {
                lemma_count_first(s, k);
            }
        },
        None => {
            assert forall|k: int| 0 < k <= s.len() implies (#[trigger] s.take(k)).filter(
                |c: char| c == '{',
            ).len() > s.take(k).filter(|c: char| c == '}').len() by {
                lemma_count_first(s, k);
            }
        },
    }
}

/// How the first character counts.
proof fn lemma_count_first(s: Seq<char>, k: int)
    requires
        0 < k <= s.len(),
    ensures
        s.take(k).filter(|c: char| c == '{').len() == s.drop_first().take(k - 1).filter(
            |c: char| c == '{',
        ).len() + (if s[0] == '{' {
            1int
        } else {
            0int
        }),
        s.take(k).filter(|c: char| c == '}').len() == s.drop_first().take(k - 1).filter(
            |c: char| c == '}',
        ).len() + (if s[0] == '}' {
            1int
        } else {
            0int
        }),
{
    let one = seq![s[0]];
    let rest = s.drop_first().take(k - 1);
    assert(s.take(k) =~= one + rest);
    Seq::filter_distributes_over_add(one, rest, |c: char| c == '{');
    Seq::filter_distributes_over_add(one, rest, |c: char| c == '}');
    reveal_with_fuel(Seq::filter, 2);
    assert(one.drop_last() =~= Seq::<char>::empty());
}

proof fn lemma_balance(s: Seq<char>, d: nat)
    requires
        d > 0,
        !s.contains('"'),
    ensures
        match object_len(s, d, false, false) {
            Some(n) => {
                &&& n <= s.len()
                &&& s.take(n as int).filter(|c: char| c == '{').len() + d == s.take(n as int).filter(
                    |c: char| c == '}',
                ).len()
                &&& forall|k: int|
                    0 <= k < n ==> (#[trigger] s.take(k)).filter(|c: char| c == '{').len() + d
                        > s.take(k).filter(|c: char| c == '}').len()
            },
            None => forall|k: int|
                0 <= k <= s.len() ==> (#[trigger] s.take(k)).filter(|c: char| c == '{').len() + d
                    > s.take(k).filter(|c: char| c == '}').len(),
        },
    decreases s.len(),
{
    reveal(Seq::filter);
    assert(s.take(0).filter(|c: char| c == '{').len() == 0);
    assert(s.take(0).filter(|c: char| c == '}').len() == 0);
    if s.len() > 0 {
        let rest = s.drop_first();
        assert(!rest.contains('"')) by {
            if rest.contains('"') {
                let i = choose|i: int| 0 <= i < rest.len() && rest[i] == '"';
                assert(s[i + 1] == '"');
            }
        }
        assert(s.contains(s[0]));
        let e: nat = if s[0] == '{' {
            d + 1
        } else if s[0] == '}' {
            (d - 1) as nat
        } else {
            d
        };
        assert forall|k: int| 0 < k <= s.len() implies (#[trigger] s.take(k)).filter(
            |c: char| c == '{',
        ).len() + d - s.take(k).filter(|c: char| c == '}').len() == rest.take(k - 1).filter(
            |c: char| c == '{',
        ).len() + e - rest.take(k - 1).filter(|c: char| c == '}').len() by {
            lemma_count_first(s, k);
        }
        if e == 0 {
            assert(s.take(1).filter(|c: char| c == '{').len() + d == s.take(1).filter(
                |c: char| c == '}',
            ).len()) by {
                assert(rest.take(0).filter(|c: char| c == '{').len() == 0);
                assert(rest.take(0).filter(|c: char| c == '}').len() == 0);
            }
        } else {
            lemma_balance(rest, e);
        }
    }
}

/// Whether a text can stand between quotes: no quote in it, but behind a backslash, and each
/// backslash with a character behind it.
pub open spec fn can_be_quoted(s: Seq<char>) -> bool
    decreases s.len(),
{
    if s.len() == 0 {
        true
    } else if s[0] == '\\' {
        s.len() > 1 && can_be_quoted(s.skip(2))
    } else {
        s[0] != '"' && can_be_quoted(s.skip(1))
    }
}

/// What stands between quotes in an object does not count: with it or without it the object ends
/// at the same place of the rest.
pub proof fn law_quoted_text_does_not_count(u: Seq<char>, body: Seq<char>, rest: Seq<char>)
    requires
        u.len() > 0,
        u[0] == '{',
        !u.contains('"'),
        first_object(u) is None,
        can_be_quoted(body),
    ensures
        first_object(u + seq!['"'] + body + seq!['"'] + rest) is Some <==> first_object(u + rest)
            is Some,
        first_object(u + rest) matches Some(o) ==> {
            &&& o.len() > u.len()
            &&& first_object(u + seq!['"'] + body + seq!['"'] + rest) == Some(
                u + seq!['"'] + body + seq!['"'] + o.skip(u.len() as int),
            )
        },
{
    let brace = seq!['{'];
    let q = seq!['"'] + body + seq!['"'] + rest;
    let long = u + seq!['"'] + body + seq!['"'] + rest;
    assert(long =~= u + q);
    assert(u.subrange(0, 1) =~= brace);
    assert(long.subrange(0, 1) =~= brace);
    assert((u + rest).subrange(0, 1) =~= brace);
    lemma_find_is_first(u, brace, 0, 0);
    lemma_find_is_first(long, brace, 0, 0);
    lemma_find_is_first(u + rest, brace, 0, 0);
    assert(u.skip(0) =~= u);
    assert(long.skip(0) =~= long);
    assert((u + rest).skip(0) =~= u + rest);
    let e = lemma_through(u, 0, q, rest);
    lemma_quoted(body, e, rest);
    lemma_object_len(rest, e, false, false);
    match object_len(rest, e, false, false) {
        Some(n) => {
            let m = u.len() + body.len() + 2 + n;
            let o = (u + rest).subrange(0, (u.len() + n) as int);
            assert(long.subrange(0, m as int) =~= u + seq!['"'] + body + seq!['"'] + o.skip(
                u.len() as int,
            ));
        },
        None => {},
    }
}

/// An object that does not end in a text goes on in what follows, whatever that is.
proof fn lemma_through(u: Seq<char>, d: nat, s: Seq<char>, t: Seq<char>) -> (e: nat)
    requires
        !u.contains('"'),
        object_len(u, d, false, false) is None,
    ensures
        object_len(u + s, d, false, false) == (match object_len(s, e, false, false) {
            Some(n) => Some(n + u.len()),
            None => None,
        }),
        object_len(u + t, d, false, false) == (match object_len(t, e, false, false) {
            Some(n) => Some(n + u.len()),
            None => None,
        }),
    decreases u.len(),
{
    if u.len() == 0 {
        assert(u + s =~= s);
        assert(u + t =~= t);
        d
    } else {
        let rest = u.drop_first();
        assert((u + s).drop_first() =~= rest + s);
        assert((u + t).drop_first() =~= rest + t);
        assert(!rest.contains('"')) by {
            if rest.contains('"') {
                let i = choose|i: int| 0 <= i < rest.len() && rest[i] == '"';
                assert(u[i + 1] == '"');
            }
        }
        assert(u.contains(u[0]));
        let next: nat = if u[0] == '{' {
            d + 1
        } else if u[0] == '}' {
            (d - 1) as nat
        } else {
            d
        };
        lemma_through(rest, next, s, t)
    }
}

proof fn lemma_quoted(body: Seq<char>, d: nat, rest: Seq<char>)
    requires
        can_be_quoted(body),
    ensures
        object_len(seq!['"'] + body + seq!['"'] + rest, d, false, false) == (match object_len(
            rest,
            d,
            false,
            false,
        ) {
            Some(n) => Some(n + body.len() + 2),
            None => None,
        }),
{
    let s = seq!['"'] + body + seq!['"'] + rest;
    assert(s.drop_first() =~= body + seq!['"'] + rest);
    lemma_in_quotes(body, d, rest);
}

proof fn lemma_in_quotes(body: Seq<char>, d: nat, rest: Seq<char>)
    requires
        can_be_quoted(body),
    ensures
        object_len(body + seq!['"'] + rest, d, true, false) == (match object_len(
            rest,
            d,
            false,
            false,
        ) {
            Some(n) => Some(n + body.len() + 1),
            None => None,
        }),
    decreases body.len(),
{
    let s = body + seq!['"'] + rest;
    if body.len() == 0 {
        assert(s[0] == '"');
        assert(s.drop_first() =~= rest);
    } else if body[0] == '\\' {
        let next = body.skip(2);
        lemma_in_quotes(next, d, rest);
        assert(s[0] == '\\');
        assert(s.drop_first().drop_first() =~= next + seq!['"'] + rest);
        reveal_with_fuel(object_len, 3);
    } else {
        let next = body.skip(1);
        lemma_in_quotes(next, d, rest);
        assert(s[0] == body[0]);
        assert(s.drop_first() =~= next + seq!['"'] + rest);
    }
}

/// A valence goes to the nearest of -1, -1/2, 0, 1/2 and 1, the lower one half way; what is not
/// a number goes to 0.
pub proof fn law_valence_levels(x: Real)
    ensures
        x.nan() ==> valence_level(x).bits == 0,
        x.bits <= 0x3fd0_0000_0000_0000 ==> valence_level(x).bits == 0,
        0x3fd0_0000_0000_0000 < x.bits <= 0x3fe8_0000_0000_0000 ==> valence_level(x).bits
            == 0x3fe0_0000_0000_0000,
        0x3fe8_0000_0000_0000 < x.bits <= 0x7ff0_0000_0000_0000 ==> valence_level(x).bits
            == 0x3ff0_0000_0000_0000,
        0x8000_0000_0000_0000 <= x.bits < 0xbfd0_0000_0000_0000 ==> valence_level(x).bits == 0,
        0xbfd0_0000_0000_0000 <= x.bits < 0xbfe8_0000_0000_0000 ==> valence_level(x).bits
            == 0xbfe0_0000_0000_0000,
        0xbfe8_0000_0000_0000 <= x.bits <= 0xfff0_0000_0000_0000 ==> valence_level(x).bits
            == 0xbff0_0000_0000_0000,
{
}

/// A salience goes to the nearest of 0, 1/4, 1/2, 3/4 and 1, the lower one half way; what is not
/// a number goes to 1/2.
pub proof fn law_salience_levels(x: Real)
    ensures
        x.nan() ==> salience_level(x).bits == 0x3fe0_0000_0000_0000,
        0x8000_0000_0000_0000 <= x.bits <= 0xfff0_0000_0000_0000 ==> salience_level(x).bits == 0,
        x.bits <= 0x3fc0_0000_0000_0000 ==> salience_level(x).bits == 0,
        0x3fc0_0000_0000_0000 < x.bits <= 0x3fd8_0000_0000_0000 ==> salience_level(x).bits
            == 0x3fd0_0000_0000_0000,
        0x3fd8_0000_0000_0000 < x.bits <= 0x3fe4_0000_0000_0000 ==> salience_level(x).bits
            == 0x3fe0_0000_0000_0000,
        0x3fe4_0000_0000_0000 < x.bits <= 0x3fec_0000_0000_0000 ==> salience_level(x).bits
            == 0x3fe8_0000_0000_0000,
        0x3fec_0000_0000_0000 < x.bits <= 0x7ff0_0000_0000_0000 ==> salience_level(x).bits
            == 0x3ff0_0000_0000_0000,
{
}

} // verus!
