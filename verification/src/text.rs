//! Text as a sequence of Unicode scalar values, and the operations on it that the
//! rest of the library is stated with.

use vstd::prelude::*;

verus! {

/// What `char::is_alphanumeric` of std answers for a character.
pub uninterp spec fn alphanumeric(c: char) -> bool;

/// `char::is_alphanumeric` of std: a function of the character alone. Which characters
/// it accepts is the Unicode database's affair and is not said here.
pub assume_specification[ char::is_alphanumeric ](c: char) -> (r: bool)
    ensures
        r == alphanumeric(c),
;

/// `String::push` of std: the character is appended at the end.
pub assume_specification[ String::push ](s: &mut String, c: char)
    ensures
        final(s)@ == old(s)@.push(c),
;

/// The characters with the Unicode property `White_Space`.
pub open spec fn is_space(c: char) -> bool {
    let n = c as u32;
    ||| 0x09 <= n <= 0x0d
    ||| n == 0x20
    ||| n == 0x85
    ||| n == 0xa0
    ||| n == 0x1680
    ||| 0x2000 <= n <= 0x200a
    ||| n == 0x2028
    ||| n == 0x2029
    ||| n == 0x202f
    ||| n == 0x205f
    ||| n == 0x3000
}

/// Whether `c` is white space.
pub fn is_whitespace(c: char) -> (r: bool)
    ensures
        r == is_space(c),
{
    let n: u32 = c as u32;
    (0x09 <= n && n <= 0x0d) || n == 0x20 || n == 0x85 || n == 0xa0 || n == 0x1680 || (0x2000 <= n
        && n <= 0x200a) || n == 0x2028 || n == 0x2029 || n == 0x202f || n == 0x205f || n == 0x3000
}

/// `s` without its leading white space.
pub open spec fn trim_start(s: Seq<char>) -> Seq<char>
    decreases s.len(),
{
    if s.len() > 0 && is_space(s[0]) {
        trim_start(s.drop_first())
    } else {
        s
    }
}

/// `s` without its trailing white space.
pub open spec fn trim_end(s: Seq<char>) -> Seq<char>
    decreases s.len(),
{
    if s.len() > 0 && is_space(s.last()) {
        trim_end(s.drop_last())
    } else {
        s
    }
}

/// `s` without white space at either end.
pub open spec fn trim(s: Seq<char>) -> Seq<char> {
    trim_end(trim_start(s))
}

/// Whether nothing of `s` is left once it is trimmed.
pub open spec fn blank(s: Seq<char>) -> bool {
    trim(s).len() == 0
}

/// ASCII capitals become small letters, every other character stays.
pub open spec fn lower_char(c: char) -> char {
    if 'A' <= c && c <= 'Z' {
        ((c as u8) + 32) as char
    } else {
        c
    }
}

/// `s` with its ASCII letters in lower case.
pub open spec fn lower(s: Seq<char>) -> Seq<char> {
    s.map_values(|c: char| lower_char(c))
}

/// The pieces of `s` between the characters that `sep` picks; always at least one piece.
pub open spec fn split(s: Seq<char>, sep: spec_fn(char) -> bool) -> Seq<Seq<char>>
    decreases s.len(),
{
    if s.len() == 0 {
        seq![Seq::empty()]
    } else {
        let front = split(s.drop_last(), sep);
        if sep(s.last()) {
            front.push(Seq::empty())
        } else {
            front.drop_last().push(front.last().push(s.last()))
        }
    }
}

/// `s` without one carriage return at its end.
pub open spec fn strip_cr(s: Seq<char>) -> Seq<char> {
    if s.len() > 0 && s.last() == '\r' {
        s.drop_last()
    } else {
        s
    }
}

/// The lines of `s`. A line ends at a line feed, or at a carriage return and a line feed;
/// after the last line the ending may be missing.
pub open spec fn lines(s: Seq<char>) -> Seq<Seq<char>> {
    let pieces = split(s, |c: char| c == '\n');
    let ended = pieces.drop_last().map_values(|l: Seq<char>| strip_cr(l));
    if pieces.last().len() == 0 {
        ended
    } else {
        ended.push(pieces.last())
    }
}

/// The parts one after the other, with `sep` between neighbours.
pub open spec fn join(parts: Seq<Seq<char>>, sep: Seq<char>) -> Seq<char>
    decreases parts.len(),
{
    if parts.len() == 0 {
        Seq::empty()
    } else if parts.len() == 1 {
        parts[0]
    } else {
        join(parts.drop_last(), sep) + sep + parts.last()
    }
}

/// `s` with each occurrence of `from`, found from left to right and not overlapping,
/// replaced by `to`.
pub open spec fn replace(s: Seq<char>, from: Seq<char>, to: Seq<char>) -> Seq<char>
    decreases s.len(),
{
    if from.len() == 0 || s.len() < from.len() {
        s
    } else if s.take(from.len() as int) == from {
        to + replace(s.skip(from.len() as int), from, to)
    } else {
        seq![s[0]] + replace(s.drop_first(), from, to)
    }
}

/// Whether `t` stands in `s` at position `i`.
pub open spec fn occurs_at(s: Seq<char>, t: Seq<char>, i: int) -> bool {
    0 <= i && i + t.len() <= s.len() && s.subrange(i, i + t.len() as int) == t
}

/// Whether `t` stands somewhere in `s`.
pub open spec fn occurs_in(s: Seq<char>, t: Seq<char>) -> bool {
    exists|i: int| occurs_at(s, t, i)
}

/// The order of texts by their code points, strictly.
pub open spec fn lex_lt(a: Seq<char>, b: Seq<char>) -> bool
    decreases a.len(),
{
    if b.len() == 0 {
        false
    } else if a.len() == 0 {
        true
    } else if a[0] != b[0] {
        a[0] < b[0]
    } else {
        lex_lt(a.drop_first(), b.drop_first())
    }
}

/// The decimal digit `d` as a character.
pub open spec fn digit(d: nat) -> char
    recommends
        d < 10,
{
    (d + 48) as char
}

/// `n` in decimal notation.
pub open spec fn decimal(n: nat) -> Seq<char>
    decreases n,
{
    if n < 10 {
        seq![digit(n)]
    } else {
        decimal(n / 10).push(digit(n % 10))
    }
}

/// The texts of a sequence of strings.
pub open spec fn texts(v: Seq<String>) -> Seq<Seq<char>> {
    v.map_values(|s: String| s@)
}

/// The text of an optional string.
pub open spec fn opt_text(o: Option<String>) -> Option<Seq<char>> {
    match o {
        Some(s) => Some(s@),
        None => None,
    }
}

/// The characters of `s`.
pub fn chars_of(s: &str) -> (r: Vec<char>)
    ensures
        r@ == s@,
{
    let mut out: Vec<char> = Vec::new();
    for c in it: s.chars()
        invariant
            out@ == it.seq().take(it.index() as int),
            it.seq() == s@,
    {
        out.push(c);
        assert(it.seq().take(it.index() as int + 1) =~= it.seq().take(it.index() as int).push(c));
    }
    out
}

/// The text that a slice of characters spells.
pub fn string_of(v: &[char]) -> (r: String)
    ensures
        r@ == v@,
{
    let mut out: String = String::new();
    let mut i: usize = 0;
    while i < v.len()
        invariant
            i <= v@.len(),
            out@ == v@.take(i as int),
        decreases v@.len() - i,
    {
        out.push(v[i]);
        i += 1;
        assert(v@.take(i as int) =~= v@.take(i - 1).push(v@[i - 1]));
    }
    assert(v@.take(i as int) =~= v@);
    out
}

/// The part of `v` from `from` up to `to`.
pub fn part(v: &[char], from: usize, to: usize) -> (r: Vec<char>)
    requires
        from <= to <= v@.len(),
    ensures
        r@ == v@.subrange(from as int, to as int),
{
    let mut out: Vec<char> = Vec::new();
    let mut i: usize = from;
    while i < to
        invariant
            from <= i <= to <= v@.len(),
            out@ == v@.subrange(from as int, i as int),
        decreases to - i,
    {
        out.push(v[i]);
        i += 1;
        assert(v@.subrange(from as int, i as int) =~= v@.subrange(from as int, i - 1).push(
            v@[i - 1],
        ));
    }
    out
}

/// Whether two slices hold the same characters.
pub fn same_chars(a: &[char], b: &[char]) -> (r: bool)
    ensures
        r == (a@ == b@),
{
    if a.len() != b.len() {
        return false;
    }
    let mut i: usize = 0;
    while i < a.len()
        invariant
            i <= a@.len(),
            a@.len() == b@.len(),
            forall|j: int| 0 <= j < i ==> a@[j] == b@[j],
        decreases a@.len() - i,
    {
        if a[i] != b[i] {
            return false;
        }
        i += 1;
    }
    assert(a@ =~= b@);
    true
}

/// Whether two texts are the same.
pub fn same_text(a: &str, b: &str) -> (r: bool)
    ensures
        r == (a@ == b@),
{
    let x = chars_of(a);
    let y = chars_of(b);
    same_chars(&x, &y)
}

/// Trimming from the front drops exactly the leading run of white space.
proof fn lemma_trim_start_at(s: Seq<char>, i: int)
    requires
        0 <= i <= s.len(),
        forall|j: int| 0 <= j < i ==> is_space(s[j]),
        i < s.len() ==> !is_space(s[i]),
    ensures
        trim_start(s) == s.skip(i),
    decreases i,
{
    if i > 0 {
        let t = s.drop_first();
        assert forall|j: int| 0 <= j < i - 1 implies is_space(t[j]) by {
            assert(t[j] == s[j + 1]);
        }
        if i < s.len() {
            assert(t[i - 1] == s[i]);
        }
        lemma_trim_start_at(t, i - 1);
        assert(t.skip(i - 1) =~= s.skip(i));
    } else {
        assert(s.skip(0) =~= s);
    }
}

/// Trimming from the back drops exactly the trailing run of white space.
proof fn lemma_trim_end_at(s: Seq<char>, i: int)
    requires
        0 <= i <= s.len(),
        forall|j: int| i <= j < s.len() ==> is_space(s[j]),
        i > 0 ==> !is_space(s[i - 1]),
    ensures
        trim_end(s) == s.take(i),
    decreases s.len() - i,
{
    if i < s.len() {
        lemma_trim_end_at(s.drop_last(), i);
        assert(s.drop_last().take(i) =~= s.take(i));
    } else {
        assert(s.take(i) =~= s);
    }
}

/// `v` without white space at either end.
pub fn trim_chars(v: &[char]) -> (r: Vec<char>)
    ensures
        r@ == trim(v@),
{
    let mut from: usize = 0;
    while from < v.len() && is_whitespace(v[from])
        invariant
            from <= v@.len(),
            forall|j: int| 0 <= j < from ==> is_space(v@[j]),
        decreases v@.len() - from,
    {
        from += 1;
    }
    let mut to: usize = v.len();
    while to > from && is_whitespace(v[to - 1])
        invariant
            from <= to <= v@.len(),
            forall|j: int| to <= j < v@.len() ==> is_space(v@[j]),
        decreases to,
    {
        to -= 1;
    }
    proof {
        lemma_trim_start_at(v@, from as int);
        let t = v@.skip(from as int);
        assert forall|j: int| to - from <= j < t.len() implies is_space(t[j]) by {
            assert(t[j] == v@[j + from]);
        }
        if to > from {
            assert(t[to - from - 1] == v@[to - 1]);
        }
        lemma_trim_end_at(t, to - from);
        assert(t.take(to - from) =~= v@.subrange(from as int, to as int));
    }
    part(v, from, to)
}

/// `s` without white space at either end.
pub fn trim_text(s: &str) -> (r: String)
    ensures
        r@ == trim(s@),
{
    let v = chars_of(s);
    let t = trim_chars(&v);
    string_of(&t)
}

/// Whether `s` holds nothing but white space.
pub fn is_blank(s: &str) -> (r: bool)
    ensures
        r == blank(s@),
{
    let v = chars_of(s);
    let t = trim_chars(&v);
    t.len() == 0
}

/// `c` in lower case, where it is an ASCII capital.
pub fn to_lower_char(c: char) -> (r: char)
    ensures
        r == lower_char(c),
{
    if 'A' <= c && c <= 'Z' {
        ((c as u8) + 32) as char
    } else {
        c
    }
}

/// `v` with its ASCII letters in lower case.
pub fn lower_chars(v: &[char]) -> (r: Vec<char>)
    ensures
        r@ == lower(v@),
{
    let mut out: Vec<char> = Vec::new();
    let mut i: usize = 0;
    while i < v.len()
        invariant
            i <= v@.len(),
            out@ == lower(v@.take(i as int)),
        decreases v@.len() - i,
    {
        out.push(to_lower_char(v[i]));
        i += 1;
        assert(lower(v@.take(i as int)) =~= lower(v@.take(i - 1)).push(lower_char(v@[i - 1])));
    }
    assert(v@.take(i as int) =~= v@);
    out
}

/// The pieces of `v` between the separators `a` and `b`.
pub fn split_on(v: &[char], a: char, b: char) -> (r: Vec<Vec<char>>)
    ensures
        r@.map_values(|p: Vec<char>| p@) == split(v@, |c: char| c == a || c == b),
        r@.len() > 0,
{
    let ghost sep = |c: char| c == a || c == b;
    let mut out: Vec<Vec<char>> = Vec::new();
    let mut cur: Vec<char> = Vec::new();
    let mut i: usize = 0;
    assert(v@.take(0) =~= Seq::empty());
    assert(out@.map_values(|p: Vec<char>| p@).push(cur@) =~= split(v@.take(0), sep));
    while i < v.len()
        invariant
            i <= v@.len(),
            sep == (|c: char| c == a || c == b),
            out@.map_values(|p: Vec<char>| p@).push(cur@) == split(v@.take(i as int), sep),
        decreases v@.len() - i,
    {
        let c = v[i];
        let ghost before = split(v@.take(i as int), sep);
        let ghost done = out@.map_values(|p: Vec<char>| p@);
        assert(v@.take(i + 1).drop_last() =~= v@.take(i as int));
        assert(v@.take(i + 1).last() == c);
        if c == a || c == b {
            out.push(cur);
            cur = Vec::new();
            assert(out@.map_values(|p: Vec<char>| p@) =~= before);
            assert(out@.map_values(|p: Vec<char>| p@).push(cur@) =~= split(v@.take(i + 1), sep));
        } else {
            let ghost old_cur = cur@;
            cur.push(c);
            assert(before.drop_last() =~= done);
            assert(before.last() == old_cur);
        }
        i += 1;
    }
    assert(v@.take(i as int) =~= v@);
    let ghost done = out@.map_values(|p: Vec<char>| p@);
    let ghost last = cur@;
    out.push(cur);
    assert(out@.map_values(|p: Vec<char>| p@) =~= done.push(last));
    out
}

/// Whether `t` stands in `v` at position `i`.
pub fn stands_at(v: &[char], t: &[char], i: usize) -> (r: bool)
    ensures
        r == occurs_at(v@, t@, i as int),
{
    if t.len() > v.len() || i > v.len() - t.len() {
        return false;
    }
    let mut j: usize = 0;
    while j < t.len()
        invariant
            j <= t@.len(),
            i + t@.len() <= v@.len() <= usize::MAX,
            forall|k: int| 0 <= k < j ==> v@[i + k] == t@[k],
        decreases t@.len() - j,
    {
        if v[i + j] != t[j] {
            assert(v@.subrange(i as int, i + t@.len() as int)[j as int] == v@[i + j]);
            return false;
        }
        j += 1;
    }
    assert(v@.subrange(i as int, i + t@.len() as int) =~= t@);
    true
}

/// Whether `t` stands somewhere in `v`.
pub fn holds_part(v: &[char], t: &[char]) -> (r: bool)
    ensures
        r == occurs_in(v@, t@),
{
    if t.len() > v.len() {
        return false;
    }
    let mut i: usize = 0;
    while i <= v.len() - t.len()
        invariant
            t@.len() <= v@.len(),
            i <= v@.len() - t@.len() + 1,
            forall|k: int| 0 <= k < i ==> !occurs_at(v@, t@, k),
        decreases v@.len() + 1 - i,
    {
        if stands_at(v, t, i) {
            return true;
        }
        if i == v.len() - t.len() {
            assert forall|k: int| !occurs_at(v@, t@, k) by {}
            return false;
        }
        i += 1;
    }
    false
}

/// `v` with each occurrence of `from` replaced by `to`.
pub fn replace_chars(v: &[char], from: &[char], to: &[char]) -> (r: Vec<char>)
    ensures
        r@ == replace(v@, from@, to@),
{
    let mut out: Vec<char> = Vec::new();
    if from.len() == 0 {
        append_chars(&mut out, v);
        assert(out@ =~= v@);
        return out;
    }
    let mut i: usize = 0;
    assert(v@.skip(0) =~= v@);
    assert(out@ + replace(v@.skip(0), from@, to@) =~= replace(v@, from@, to@));
    while i < v.len()
        invariant
            i <= v@.len(),
            from@.len() > 0,
            out@ + replace(v@.skip(i as int), from@, to@) == replace(v@, from@, to@),
        decreases v@.len() - i,
    {
        let ghost rest = v@.skip(i as int);
        let ghost before = out@;
        if stands_at(v, from, i) {
            append_chars(&mut out, to);
            i += from.len();
            proof {
                let n = from@.len() as int;
                assert(rest.take(n) =~= v@.subrange(i - n, i as int));
                assert(rest.skip(n) =~= v@.skip(i as int));
                assert(before + (to@ + replace(v@.skip(i as int), from@, to@)) =~= out@ + replace(
                    v@.skip(i as int),
                    from@,
                    to@,
                ));
            }
        } else {
            out.push(v[i]);
            i += 1;
            proof {
                let n = from@.len() as int;
                assert(rest.drop_first() =~= v@.skip(i as int));
                if rest.len() >= n {
                    assert(rest.take(n) =~= v@.subrange(i - 1, i - 1 + n));
                    assert(before + (seq![rest[0]] + replace(v@.skip(i as int), from@, to@))
                        =~= out@ + replace(v@.skip(i as int), from@, to@));
                } else {
                    assert(replace(rest, from@, to@) == rest);
                    assert(replace(v@.skip(i as int), from@, to@) == v@.skip(i as int));
                    assert(before + rest =~= out@ + v@.skip(i as int));
                }
            }
        }
    }
    assert(v@.skip(i as int) =~= Seq::empty());
    assert(out@ + Seq::<char>::empty() =~= out@);
    out
}

/// Appends `more` to `out`.
pub fn append_chars(out: &mut Vec<char>, more: &[char])
    ensures
        final(out)@ == old(out)@ + more@,
{
    let mut i: usize = 0;
    assert(out@ =~= old(out)@ + more@.take(0));
    while i < more.len()
        invariant
            i <= more@.len(),
            out@ == old(out)@ + more@.take(i as int),
        decreases more@.len() - i,
    {
        out.push(more[i]);
        i += 1;
        assert(old(out)@ + more@.take(i as int) =~= (old(out)@ + more@.take(i - 1)).push(
            more@[i - 1],
        ));
    }
    assert(more@.take(i as int) =~= more@);
}

/// `s` with each occurrence of `from` replaced by `to`.
pub fn replace_text(s: &str, from: &str, to: &str) -> (r: String)
    ensures
        r@ == replace(s@, from@, to@),
{
    let v = chars_of(s);
    let f = chars_of(from);
    let t = chars_of(to);
    let out = replace_chars(&v, &f, &t);
    string_of(&out)
}

/// Whether `a` comes strictly before `b` in the order of texts.
pub fn text_before(a: &str, b: &str) -> (r: bool)
    ensures
        r == lex_lt(a@, b@),
{
    let x = chars_of(a);
    let y = chars_of(b);
    chars_before(&x, &y)
}

/// Whether `x` comes strictly before `y` in the order of texts.
pub fn chars_before(x: &[char], y: &[char]) -> (r: bool)
    ensures
        r == lex_lt(x@, y@),
{
    let mut i: usize = 0;
    assert(x@.skip(0) =~= x@);
    assert(y@.skip(0) =~= y@);
    while i < x.len() && i < y.len()
        invariant
            i <= x@.len(),
            i <= y@.len(),
            lex_lt(x@, y@) == lex_lt(x@.skip(i as int), y@.skip(i as int)),
        decreases x@.len() - i,
    {
        if x[i] != y[i] {
            return x[i] < y[i];
        }
        assert(x@.skip(i as int).drop_first() =~= x@.skip(i + 1));
        assert(y@.skip(i as int).drop_first() =~= y@.skip(i + 1));
        i += 1;
    }
    i < y.len()
}

/// `n` in decimal notation.
pub fn decimal_chars(n: u64) -> (r: Vec<char>)
    ensures
        r@ == decimal(n as nat),
    decreases n,
{
    if n < 10 {
        let d: u8 = (n as u8) + 48;
        let mut out: Vec<char> = Vec::new();
        out.push(d as char);
        assert(out@ =~= seq![digit(n as nat)]);
        out
    } else {
        let mut out = decimal_chars(n / 10);
        let d: u8 = ((n % 10) as u8) + 48;
        out.push(d as char);
        out
    }
}

/// The lines of `s`.
pub fn lines_of(s: &str) -> (r: Vec<Vec<char>>)
    ensures
        r@.map_values(|p: Vec<char>| p@) == lines(s@),
{
    let v = chars_of(s);
    let pieces = split_on(&v, '\n', '\n');
    let ghost all = pieces@.map_values(|p: Vec<char>| p@);
    assert((|c: char| c == '\n' || c == '\n') =~= (|c: char| c == '\n'));
    let mut out: Vec<Vec<char>> = Vec::new();
    let last: usize = pieces.len() - 1;
    let mut i: usize = 0;
    while i < last
        invariant
            i <= last,
            last == pieces@.len() - 1,
            all == pieces@.map_values(|p: Vec<char>| p@),
            out@.map_values(|p: Vec<char>| p@) == all.take(i as int).map_values(
                |l: Seq<char>| strip_cr(l),
            ),
        decreases last - i,
    {
        let line = &pieces[i];
        let n: usize = line.len();
        let ghost before = out@.map_values(|p: Vec<char>| p@);
        let piece: Vec<char> = if n > 0 && line[n - 1] == '\r' {
            part(line, 0, n - 1)
        } else {
            part(line, 0, n)
        };
        assert(piece@ =~= strip_cr(all[i as int]));
        let ghost added = piece@;
        out.push(piece);
        i += 1;
        assert(out@.map_values(|p: Vec<char>| p@) =~= before.push(added));
        assert(all.take(i as int).map_values(|l: Seq<char>| strip_cr(l)) =~= all.take(
            i - 1,
        ).map_values(|l: Seq<char>| strip_cr(l)).push(strip_cr(all[i - 1])));
    }
    assert(all.take(last as int) =~= all.drop_last());
    let n: usize = pieces[last].len();
    if n > 0 {
        let ghost before = out@.map_values(|p: Vec<char>| p@);
        let tail = part(&pieces[last], 0, n);
        assert(tail@ =~= all.last());
        out.push(tail);
        assert(out@.map_values(|p: Vec<char>| p@) =~= before.push(all.last()));
    }
    out
}

/// The first position of `c` in `s`, or the length of `s` where it does not occur.
pub open spec fn first_at(s: Seq<char>, c: char) -> int
    decreases s.len(),
{
    if s.len() == 0 || s[0] == c {
        0
    } else {
        1 + first_at(s.drop_first(), c)
    }
}

/// Where `first_at` points: to the first occurrence.
pub proof fn lemma_first_at(s: Seq<char>, c: char, i: int)
    requires
        0 <= i <= s.len(),
        forall|j: int| 0 <= j < i ==> s[j] != c,
        i < s.len() ==> s[i] == c,
    ensures
        first_at(s, c) == i,
    decreases i,
{
    if i > 0 {
        let t = s.drop_first();
        assert forall|j: int| 0 <= j < i - 1 implies t[j] != c by {
            assert(t[j] == s[j + 1]);
        }
        if i < s.len() {
            assert(t[i - 1] == s[i]);
        }
        lemma_first_at(t, c, i - 1);
    }
}

/// The first position of `c` in `v`, or the length of `v`.
pub fn find_char(v: &[char], c: char) -> (r: usize)
    ensures
        r == first_at(v@, c),
        r <= v@.len(),
{
    let mut i: usize = 0;
    while i < v.len() && v[i] != c
        invariant
            i <= v@.len(),
            forall|j: int| 0 <= j < i ==> v@[j] != c,
        decreases v@.len() - i,
    {
        i += 1;
    }
    proof {
        lemma_first_at(v@, c, i as int);
    }
    i
}

/// `v` without white space at its end.
pub fn trim_end_chars(v: &[char]) -> (r: Vec<char>)
    ensures
        r@ == trim_end(v@),
{
    let mut to: usize = v.len();
    while to > 0 && is_whitespace(v[to - 1])
        invariant
            to <= v@.len(),
            forall|j: int| to <= j < v@.len() ==> is_space(v@[j]),
        decreases to,
    {
        to -= 1;
    }
    proof {
        lemma_trim_end_at(v@, to as int);
    }
    part(v, 0, to)
}

/// Whether `v` spells `s`.
pub fn spells(v: &[char], s: &str) -> (r: bool)
    ensures
        r == (v@ == s@),
{
    let t = chars_of(s);
    same_chars(v, &t)
}

/// A copy of `s`.
pub fn copy_text(s: &str) -> (r: String)
    ensures
        r@ == s@,
{
    let v = chars_of(s);
    string_of(&v)
}

/// No text comes before itself.
pub proof fn lemma_lex_irreflexive(a: Seq<char>)
    ensures
        !lex_lt(a, a),
    decreases a.len(),
{
    if a.len() > 0 {
        lemma_lex_irreflexive(a.drop_first());
    }
}

/// The order of texts is transitive.
pub proof fn lemma_lex_transitive(a: Seq<char>, b: Seq<char>, c: Seq<char>)
    requires
        lex_lt(a, b),
        lex_lt(b, c),
    ensures
        lex_lt(a, c),
    decreases a.len(),
{
    if a.len() > 0 && a[0] == b[0] && b[0] == c[0] {
        lemma_lex_transitive(a.drop_first(), b.drop_first(), c.drop_first());
    }
}

/// Of two different texts one comes first.
pub proof fn lemma_lex_total(a: Seq<char>, b: Seq<char>)
    ensures
        lex_lt(a, b) || lex_lt(b, a) || a == b,
    decreases a.len(),
{
    if a.len() == 0 || b.len() == 0 {
        if a.len() == b.len() {
            assert(a =~= b);
        }
    } else if a[0] == b[0] {
        lemma_lex_total(a.drop_first(), b.drop_first());
        if a.drop_first() == b.drop_first() {
            assert(a =~= seq![a[0]] + a.drop_first());
            assert(b =~= seq![b[0]] + b.drop_first());
        }
    }
}

/// `n` in decimal notation, with a sign where it is negative.
pub open spec fn signed_decimal(n: int) -> Seq<char> {
    if n < 0 {
        seq!['-'] + decimal((-n) as nat)
    } else {
        decimal(n as nat)
    }
}

/// `n` in decimal notation, with a sign where it is negative.
pub fn signed_chars(n: i64) -> (r: Vec<char>)
    ensures
        r@ == signed_decimal(n as int),
{
    if n < 0 {
        let mut out: Vec<char> = Vec::new();
        out.push('-');
        let m: u64 = if n == i64::MIN {
            0x8000_0000_0000_0000
        } else {
            (-n) as u64
        };
        let digits = decimal_chars(m);
        append_chars(&mut out, &digits);
        assert(out@ =~= signed_decimal(n as int));
        out
    } else {
        decimal_chars(n as u64)
    }
}

/// Appends a text.
pub fn push_text(out: &mut Vec<char>, s: &str)
    ensures
        final(out)@ == old(out)@ + s@,
{
    let v = chars_of(s);
    append_chars(out, &v);
}

/// Appends a number in decimal notation.
pub fn push_number(out: &mut Vec<char>, n: u32)
    ensures
        final(out)@ == old(out)@ + decimal(n as nat),
{
    let v = decimal_chars(n as u64);
    append_chars(out, &v);
}

/// The parts one after the other, with `sep` between neighbours.
pub fn join_parts(parts: &Vec<Vec<char>>, sep: &str) -> (r: Vec<char>)
    ensures
        r@ == join(parts@.map_values(|p: Vec<char>| p@), sep@),
{
    let ghost all = parts@.map_values(|p: Vec<char>| p@);
    let mid = chars_of(sep);
    let mut out: Vec<char> = Vec::new();
    let mut i: usize = 0;
    assert(all.take(0) =~= Seq::<Seq<char>>::empty());
    while i < parts.len()
        invariant
            i <= parts@.len(),
            all == parts@.map_values(|p: Vec<char>| p@),
            mid@ == sep@,
            out@ == join(all.take(i as int), sep@),
        decreases parts@.len() - i,
    {
        assert(all.take(i + 1).drop_last() =~= all.take(i as int));
        assert(all.take(i + 1).last() == parts@[i as int]@);
        if i > 0 {
            append_chars(&mut out, &mid);
        }
        append_chars(&mut out, &parts[i]);
        i += 1;
        assert(out@ =~= join(all.take(i as int), sep@));
    }
    assert(all.take(i as int) =~= all);
    out
}

/// `s`, or its beginning and an ellipsis where it is longer than `max` characters; the
/// ellipsis counts.
pub open spec fn shortened(s: Seq<char>, max: nat) -> Seq<char> {
    if s.len() <= max {
        s
    } else if max == 0 {
        Seq::empty()
    } else {
        s.take(max - 1).push('…')
    }
}

/// `s`, or its beginning and an ellipsis where it is longer than `max` characters.
pub fn truncate_chars(s: &str, max: usize) -> (r: String)
    ensures
        r@ == shortened(s@, max as nat),
{
    let v = chars_of(s);
    if v.len() <= max {
        return string_of(&v);
    }
    if max == 0 {
        return String::new();
    }
    let mut out = part(&v, 0, max - 1);
    assert(out@ =~= s@.take(max - 1));
    out.push('…');
    string_of(&out)
}

/// At most the first `max` characters of `s`.
pub open spec fn cut(s: Seq<char>, max: nat) -> Seq<char> {
    if s.len() <= max {
        s
    } else {
        s.take(max as int)
    }
}

/// At most the first `max` characters of `s`.
pub fn truncate_chars_bare(s: &str, max: usize) -> (r: String)
    ensures
        r@ == cut(s@, max as nat),
{
    let v = chars_of(s);
    if v.len() <= max {
        return string_of(&v);
    }
    let out = part(&v, 0, max);
    assert(out@ =~= s@.take(max as int));
    string_of(&out)
}

/// A copy of an optional text.
pub fn copy_opt(o: &Option<String>) -> (r: Option<String>)
    ensures
        opt_text(r) == opt_text(*o),
{
    match o {
        Some(s) => Some(copy_text(s.as_str())),
        None => None,
    }
}

/// The texts of lists of characters.
pub open spec fn char_seqs(v: Seq<Vec<char>>) -> Seq<Seq<char>> {
    v.map_values(|p: Vec<char>| p@)
}

/// Trimming takes off the spaces at both ends and nothing else: what is left stands in the
/// text between spaces, and has no space at its ends.
pub proof fn law_trim_takes_spaces_off(s: Seq<char>)
    ensures
        exists|a: int, b: int|
            {
                &&& 0 <= a <= b <= s.len()
                &&& trim(s) == #[trigger] s.subrange(a, b)
                &&& forall|i: int| 0 <= i < a || b <= i < s.len() ==> is_space(#[trigger] s[i])
            },
        trim(s).len() > 0 ==> !is_space(trim(s)[0]) && !is_space(trim(s).last()),
        blank(s) <==> forall|i: int| 0 <= i < s.len() ==> is_space(#[trigger] s[i]),
{
    let a = lemma_trim_start_place(s);
    let t = trim_start(s);
    let m = lemma_trim_end_place(t);
    assert(trim(s) =~= s.subrange(a, a + m));
    assert forall|i: int| 0 <= i < a || a + m <= i < s.len() implies is_space(#[trigger] s[i]) by {
        if a + m <= i {
            assert(t[i - a] == s[i]);
        }
    }
    if m > 0 {
        assert(trim(s)[0] == t[0]);
    }
    if exists|i: int| 0 <= i < s.len() && !is_space(#[trigger] s[i]) {
        let i = choose|i: int| 0 <= i < s.len() && !is_space(#[trigger] s[i]);
        assert(a <= i < a + m);
    }
}

/// Where the text starts that is left when the spaces before it are taken off.
proof fn lemma_trim_start_place(s: Seq<char>) -> (a: int)
    ensures
        0 <= a <= s.len(),
        trim_start(s) == s.skip(a),
        forall|i: int| 0 <= i < a ==> is_space(#[trigger] s[i]),
        a < s.len() ==> !is_space(s[a]),
    decreases s.len(),
{
    if s.len() > 0 && is_space(s[0]) {
        let b = lemma_trim_start_place(s.drop_first());
        assert(s.drop_first().skip(b) =~= s.skip(b + 1));
        assert forall|i: int| 0 <= i < b + 1 implies is_space(#[trigger] s[i]) by {
            if i > 0 {
                assert(s.drop_first()[i - 1] == s[i]);
            }
        }
        b + 1
    } else {
        assert(s.skip(0) =~= s);
        0
    }
}

/// Where the text ends that is left when the spaces behind it are taken off.
proof fn lemma_trim_end_place(s: Seq<char>) -> (m: int)
    ensures
        0 <= m <= s.len(),
        trim_end(s) == s.take(m),
        forall|i: int| m <= i < s.len() ==> is_space(#[trigger] s[i]),
        m > 0 ==> !is_space(s[m - 1]),
    decreases s.len(),
{
    if s.len() > 0 && is_space(s.last()) {
        let m = lemma_trim_end_place(s.drop_last());
        assert(s.drop_last().take(m) =~= s.take(m));
        assert forall|i: int| m <= i < s.len() implies is_space(#[trigger] s[i]) by {
            if i < s.len() - 1 {
                assert(s.drop_last()[i] == s[i]);
            }
        }
        m
    } else {
        assert(s.take(s.len() as int) =~= s);
        s.len() as int
    }
}

/// Taking the spaces off behind a text leaves its beginning up to the last character that is
/// none.
pub proof fn law_trim_end_keeps_the_beginning(s: Seq<char>)
    ensures
        exists|m: int|
            {
                &&& 0 <= m <= s.len()
                &&& trim_end(s) == #[trigger] s.take(m)
                &&& forall|i: int| m <= i < s.len() ==> is_space(#[trigger] s[i])
                &&& m > 0 ==> !is_space(s[m - 1])
            },
{
    let m = lemma_trim_end_place(s);
    assert(trim_end(s) == s.take(m));
}

/// Among the first 128 characters the blank, the tab, the line feed, the vertical tab, the form
/// feed and the carriage return are spaces, and no others.
pub proof fn law_plain_spaces(c: char)
    requires
        c < '\u{80}',
    ensures
        is_space(c) <==> c == ' ' || ('\u{9}' <= c && c <= '\u{d}'),
{
}

/// Lower case changes capital letters of the Latin alphabet to the small ones, each in its
/// place, and nothing else.
pub proof fn law_lower_case(s: Seq<char>)
    ensures
        lower(s).len() == s.len(),
        forall|i: int|
            0 <= i < s.len() ==> (#[trigger] lower(s)[i]) as u32 == (if 'A' <= s[i] && s[i] <= 'Z' {
                s[i] as u32 + 32
            } else {
                s[i] as u32 as int
            }),
{
}

/// A text without separators is one piece.
pub proof fn law_split_of_one(s: Seq<char>, sep: spec_fn(char) -> bool)
    requires
        forall|i: int| 0 <= i < s.len() ==> !sep(#[trigger] s[i]),
    ensures
        split(s, sep) == seq![s],
    decreases s.len(),
{
    if s.len() > 0 {
        assert forall|i: int| 0 <= i < s.drop_last().len() implies !sep(
            #[trigger] s.drop_last()[i],
        ) by {
            assert(s.drop_last()[i] == s[i]);
        }
        law_split_of_one(s.drop_last(), sep);
        assert(s.drop_last().push(s.last()) =~= s);
        assert(!sep(s[s.len() - 1]));
        assert(split(s, sep) =~= seq![s]);
    } else {
        assert(s =~= Seq::<char>::empty());
    }
}

/// A separator parts the pieces before it from those behind it.
pub proof fn law_split_at_separator(a: Seq<char>, c: char, b: Seq<char>, sep: spec_fn(char) -> bool)
    requires
        sep(c),
    ensures
        split(a.push(c) + b, sep) == split(a, sep) + split(b, sep),
    decreases b.len(),
{
    let s = a.push(c) + b;
    lemma_split_some(b, sep);
    if b.len() == 0 {
        assert(s =~= a.push(c));
        assert(s.drop_last() =~= a);
        assert(split(s, sep) =~= split(a, sep) + split(b, sep));
    } else {
        let f = b.drop_last();
        law_split_at_separator(a, c, f, sep);
        lemma_split_some(f, sep);
        assert(s.drop_last() =~= a.push(c) + f);
        let front = split(a, sep) + split(f, sep);
        assert(front.last() == split(f, sep).last());
        assert(front.drop_last() =~= split(a, sep) + split(f, sep).drop_last());
        assert(split(s, sep) =~= split(a, sep) + split(b, sep));
    }
}

/// There is a piece always.
proof fn lemma_split_some(s: Seq<char>, sep: spec_fn(char) -> bool)
    ensures
        split(s, sep).len() > 0,
    decreases s.len(),
{
    if s.len() > 0 {
        lemma_split_some(s.drop_last(), sep);
    }
}

/// A text without line feeds is one line, or none where it is empty.
pub proof fn law_last_line(s: Seq<char>)
    requires
        !s.contains('\n'),
    ensures
        lines(s) == (if s.len() == 0 {
            Seq::empty()
        } else {
            seq![s]
        }),
{
    law_split_of_one(s, |c: char| c == '\n');
    assert(seq![s].drop_last() =~= Seq::<Seq<char>>::empty());
    assert(lines(s) =~= (if s.len() == 0 {
        Seq::empty()
    } else {
        seq![s]
    }));
}

/// A line feed ends a line; a carriage return before it is no part of the line.
pub proof fn law_first_line(a: Seq<char>, b: Seq<char>)
    requires
        !a.contains('\n'),
    ensures
        lines(a.push('\n') + b) == seq![
            if a.len() > 0 && a.last() == '\r' {
                a.drop_last()
            } else {
                a
            },
        ] + lines(b),
{
    let sep = |c: char| c == '\n';
    law_split_of_one(a, sep);
    law_split_at_separator(a, '\n', b, sep);
    lemma_split_some(b, sep);
    let whole = split(a.push('\n') + b, sep);
    let rest = split(b, sep);
    assert(whole =~= seq![a] + rest);
    assert(whole.drop_last() =~= seq![a] + rest.drop_last());
    assert(lines(a.push('\n') + b) =~= seq![strip_cr(a)] + lines(b));
}

/// Joined texts stand one after the other, with the separator between them and nowhere else.
pub proof fn law_join_parts(a: Seq<Seq<char>>, b: Seq<Seq<char>>, sep: Seq<char>)
    ensures
        join(Seq::empty(), sep) == Seq::<char>::empty(),
        forall|x: Seq<char>| #[trigger] join(seq![x], sep) == x,
        a.len() > 0 && b.len() > 0 ==> join(a + b, sep) == join(a, sep) + sep + join(b, sep),
    decreases b.len(),
{
    if a.len() > 0 && b.len() > 0 {
        let s = a + b;
        assert(s.drop_last() =~= a + b.drop_last());
        assert(s.last() == b.last());
        if b.len() == 1 {
            assert(a + b.drop_last() =~= a);
            assert(join(s, sep) =~= join(a, sep) + sep + join(b, sep));
        } else {
            law_join_parts(a, b.drop_last(), sep);
            assert(join(s, sep) =~= join(a, sep) + sep + join(b, sep));
        }
    }
}

/// A text in which a part does not occur is not changed by replacing that part.
pub proof fn law_nothing_to_replace(s: Seq<char>, from: Seq<char>, to: Seq<char>)
    requires
        forall|i: int|
            0 <= i && i + from.len() <= s.len() ==> #[trigger] s.subrange(i, i + from.len()) != from,
    ensures
        replace(s, from, to) == s,
    decreases s.len(),
{
    if from.len() > 0 && s.len() >= from.len() {
        assert(s.subrange(0, 0int + from.len()) =~= s.take(from.len() as int));
        let rest = s.drop_first();
        assert forall|i: int| 0 <= i && i + from.len() <= rest.len() implies #[trigger] rest.subrange(
            i,
            i + from.len(),
        ) != from by {
            assert(rest.subrange(i, i + from.len()) =~= s.subrange(i + 1, i + 1 + from.len()));
        }
        law_nothing_to_replace(rest, from, to);
        assert(seq![s[0]] + rest =~= s);
    }
}

/// The first place where a part occurs is replaced, what stands before it stays, and the rest
/// is treated in the same way.
pub proof fn law_first_is_replaced(a: Seq<char>, from: Seq<char>, b: Seq<char>, to: Seq<char>)
    requires
        from.len() > 0,
        forall|i: int|
            0 <= i < a.len() ==> #[trigger] (a + from + b).subrange(i, i + from.len()) != from,
    ensures
        replace(a + from + b, from, to) == a + to + replace(b, from, to),
    decreases a.len(),
{
    let s = a + from + b;
    assert(s.subrange(0, 0int + from.len()) =~= s.take(from.len() as int));
    if a.len() == 0 {
        assert(s.take(from.len() as int) =~= from);
        assert(s.skip(from.len() as int) =~= b);
        assert(a + to =~= to);
    } else {
        let f = a.drop_first();
        assert(s.drop_first() =~= f + from + b);
        assert forall|i: int| 0 <= i < f.len() implies #[trigger] (f + from + b).subrange(
            i,
            i + from.len(),
        ) != from by {
            assert((f + from + b).subrange(i, i + from.len()) =~= s.subrange(
                i + 1,
                i + 1 + from.len(),
            ));
        }
        law_first_is_replaced(f, from, b, to);
        assert(s.subrange(0, 0int + from.len()) != from);
        assert(seq![s[0]] + (f + to + replace(b, from, to)) =~= a + to + replace(b, from, to));
    }
}

/// The place that is found is the first one with the character, or the end of the text.
pub proof fn law_first_place(s: Seq<char>, c: char)
    ensures
        0 <= first_at(s, c) <= s.len(),
        first_at(s, c) < s.len() ==> s[first_at(s, c)] == c,
        forall|i: int| 0 <= i < first_at(s, c) ==> #[trigger] s[i] != c,
    decreases s.len(),
{
    if s.len() > 0 && s[0] != c {
        law_first_place(s.drop_first(), c);
        assert forall|i: int| 0 <= i < first_at(s, c) implies #[trigger] s[i] != c by {
            if i > 0 {
                assert(s.drop_first()[i - 1] == s[i]);
            }
        }
    }
}

/// The first difference decides which of two texts comes first; the beginning of a text comes
/// before the text.
pub proof fn law_text_order(p: Seq<char>, x: char, a: Seq<char>, y: char, b: Seq<char>)
    requires
        x != y,
    ensures
        lex_lt(p.push(x) + a, p.push(y) + b) == (x < y),
        lex_lt(p, p.push(x) + a),
    decreases p.len(),
{
    let s = p.push(x) + a;
    let t = p.push(y) + b;
    if p.len() > 0 {
        let q = p.drop_first();
        law_text_order(q, x, a, y, b);
        assert(s.drop_first() =~= q.push(x) + a);
        assert(t.drop_first() =~= q.push(y) + b);
    }
}

/// The number that decimal digits stand for.
pub open spec fn number_of(s: Seq<char>) -> int
    decreases s.len(),
{
    if s.len() == 0 {
        0
    } else {
        10 * number_of(s.drop_last()) + (s.last() as u32 - 48)
    }
}

/// A number is written with decimal digits that stand for it, without a zero in front.
pub proof fn law_decimal_reads_back(n: nat)
    ensures
        number_of(decimal(n)) == n,
        decimal(n).len() > 0,
        forall|i: int|
            0 <= i < decimal(n).len() ==> '0' <= #[trigger] decimal(n)[i] && decimal(n)[i] <= '9',
        decimal(n)[0] == '0' ==> n == 0,
        n == 0 ==> decimal(n).len() == 1,
    decreases n,
{
    reveal_with_fuel(number_of, 2);
    if n >= 10 {
        let f = decimal(n / 10);
        law_decimal_reads_back(n / 10);
        assert(decimal(n).drop_last() =~= f);
        assert(decimal(n)[0] == f[0]);
        assert forall|i: int| 0 <= i < decimal(n).len() implies '0' <= #[trigger] decimal(n)[i]
            && decimal(n)[i] <= '9' by {
            if i < f.len() {
                assert(decimal(n)[i] == f[i]);
            }
        }
    } else {
        assert(decimal(n).drop_last() =~= Seq::<char>::empty());
    }
}

/// A shortened text is the text itself where it is short enough; otherwise it fills the length
/// that is allowed, is a beginning of the text, and ends with an ellipsis.
pub proof fn law_shortening(s: Seq<char>, max: nat)
    ensures
        shortened(s, max).len() == (if s.len() < max {
            s.len()
        } else {
            max
        }),
        forall|i: int|
            0 <= i < shortened(s, max).len() && (i + 1 < max || s.len() <= max)
                ==> #[trigger] shortened(s, max)[i] == s[i],
        s.len() > max && max > 0 ==> shortened(s, max).last() == '…',
        cut(s, max) == s.take(
            if s.len() < max {
                s.len() as int
            } else {
                max as int
            },
        ),
{
    assert(s.take(s.len() as int) =~= s);
}

/// A number below zero is written with a sign in front; any other number is written without one.
pub proof fn law_sign_in_front(n: int)
    ensures
        n >= 0 ==> signed_decimal(n) == decimal(n as nat),
        n < 0 ==> signed_decimal(n).len() == decimal((-n) as nat).len() + 1 && signed_decimal(n)[0]
            == '-' && signed_decimal(n).skip(1) == decimal((-n) as nat),
{
    if n < 0 {
        assert(signed_decimal(n).skip(1) =~= decimal((-n) as nat));
    }
}

/// What strings and lists of characters say is what each of them says, in order.
pub proof fn law_texts_are_seen(v: Seq<String>, w: Seq<Vec<char>>, o: Option<String>)
    ensures
        texts(v).len() == v.len(),
        forall|i: int| 0 <= i < v.len() ==> #[trigger] texts(v)[i] == v[i]@,
        char_seqs(w).len() == w.len(),
        forall|i: int| 0 <= i < w.len() ==> #[trigger] char_seqs(w)[i] == w[i]@,
        o matches Some(s) ==> opt_text(o) == Some(s@),
        o is None ==> opt_text(o) is None,
{
}

/// Whether a text stands in another does not depend on what stands round it there; an empty text
/// stands everywhere, and a longer one never stands in a shorter one.
pub proof fn law_parts_of_texts(a: Seq<char>, t: Seq<char>, b: Seq<char>)
    ensures
        occurs_in(a + t + b, t),
        occurs_in(a, Seq::empty()),
        t.len() > a.len() ==> !occurs_in(a, t),
        occurs_in(a, t) ==> exists|x: Seq<char>, y: Seq<char>| a == #[trigger] (x + t + y),
{
    let n = a.len() as int;
    assert((a + t + b).subrange(n, n + t.len()) =~= t);
    assert(occurs_at(a + t + b, t, n));
    assert(a.subrange(0, 0) =~= Seq::<char>::empty());
    assert(occurs_at(a, Seq::empty(), 0));
    if occurs_in(a, t) {
        let i = choose|i: int| occurs_at(a, t, i);
        assert(a =~= a.take(i) + t + a.skip(i + t.len()));
    }
}

} // verus!
