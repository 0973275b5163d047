//! Normalised keywords and ordered sets of them.

use vstd::prelude::*;

use crate::text::{blank, chars_of, is_space, lower, lower_char, lower_chars, same_text, string_of,
    trim, trim_chars, trim_end, trim_start};

verus! {

/// The normal form of a keyword: trimmed, ASCII letters small.
pub open spec fn token_text(s: Seq<char>) -> Seq<char> {
    lower(trim(s))
}

/// Whether `s` is a keyword in normal form: not empty, trimmed, no ASCII capitals.
pub open spec fn valid_token(s: Seq<char>) -> bool {
    s.len() > 0 && trim(s) == s && lower(s) == s
}

/// The distinct elements of `s`, in the order of their first occurrence.
pub open spec fn distinct(s: Seq<Seq<char>>) -> Seq<Seq<char>>
    decreases s.len(),
{
    if s.len() == 0 {
        Seq::empty()
    } else {
        let front = distinct(s.drop_last());
        if front.contains(s.last()) {
            front
        } else {
            front.push(s.last())
        }
    }
}

/// The distinct elements are distinct, and they are the elements.
pub proof fn lemma_distinct(s: Seq<Seq<char>>)
    ensures
        distinct(s).no_duplicates(),
        forall|t: Seq<char>| distinct(s).contains(t) <==> s.contains(t),
    decreases s.len(),
{
    if s.len() > 0 {
        let rest = s.drop_last();
        let front = distinct(rest);
        lemma_distinct(rest);
        assert forall|t: Seq<char>| distinct(s).contains(t) <==> s.contains(t) by {
            if s.contains(t) {
                let i = choose|i: int| 0 <= i < s.len() && s[i] == t;
                if i < rest.len() {
                    assert(rest[i] == t);
                    assert(rest.contains(t));
                    assert(front.contains(t));
                    let j = choose|j: int| 0 <= j < front.len() && front[j] == t;
                    assert(distinct(s)[j] == t);
                } else if !front.contains(t) {
                    assert(distinct(s)[front.len() as int] == t);
                }
            }
            if distinct(s).contains(t) {
                let j = choose|j: int| 0 <= j < distinct(s).len() && distinct(s)[j] == t;
                if j < front.len() {
                    assert(front[j] == t);
                    assert(rest.contains(t));
                    let i = choose|i: int| 0 <= i < rest.len() && rest[i] == t;
                    assert(s[i] == t);
                } else {
                    assert(s[s.len() - 1] == t);
                }
            }
        }
    }
}

/// Text that has no white space at its ends is already trimmed.
pub proof fn lemma_trim_fixed(s: Seq<char>)
    requires
        s.len() > 0 ==> !is_space(s[0]) && !is_space(s.last()),
    ensures
        trim(s) == s,
{
}

/// Trimmed text has no white space at its ends.
pub proof fn lemma_trim_ends(s: Seq<char>)
    ensures
        trim(s).len() > 0 ==> !is_space(trim(s)[0]) && !is_space(trim(s).last()),
{
    lemma_trim_start_ends(s);
    lemma_trim_end_ends(trim_start(s));
}

proof fn lemma_trim_start_ends(s: Seq<char>)
    ensures
        trim_start(s).len() > 0 ==> !is_space(trim_start(s)[0]),
    decreases s.len(),
{
    if s.len() > 0 && is_space(s[0]) {
        lemma_trim_start_ends(s.drop_first());
    }
}

proof fn lemma_trim_end_ends(s: Seq<char>)
    ensures
        trim_end(s).len() > 0 ==> !is_space(trim_end(s).last()) && trim_end(s)[0] == s[0],
    decreases s.len(),
{
    if s.len() > 0 && is_space(s.last()) {
        lemma_trim_end_ends(s.drop_last());
    }
}

/// Lower case keeps the length and the white space, and is done after one time.
proof fn lemma_lower(s: Seq<char>)
    ensures
        lower(s).len() == s.len(),
        forall|i: int| 0 <= i < s.len() ==> is_space(#[trigger] lower(s)[i]) == is_space(s[i]),
        lower(lower(s)) == lower(s),
{
    assert forall|i: int| 0 <= i < s.len() implies is_space(#[trigger] lower(s)[i]) == is_space(
        s[i],
    ) && lower_char(lower(s)[i]) == lower(s)[i] by {
        assert(lower(s)[i] == lower_char(s[i]));
    }
    assert(lower(lower(s)) =~= lower(s));
}

/// The normal form of text that is not blank is a keyword in normal form, and is its own
/// normal form.
pub proof fn law_token_text_is_normal(s: Seq<char>)
    requires
        !blank(s),
    ensures
        valid_token(token_text(s)),
        token_text(token_text(s)) == token_text(s),
{
    let t = trim(s);
    lemma_trim_ends(s);
    lemma_lower(t);
    lemma_trim_fixed(lower(t));
}

/// A keyword in normal form.
#[derive(Debug)]
pub struct KeywordToken {
    text: String,
}

impl View for KeywordToken {
    type V = Seq<char>;

    closed spec fn view(&self) -> Seq<char> {
        self.text@
    }
}

impl KeywordToken {
    #[verifier::type_invariant]
    spec fn inv(self) -> bool {
        valid_token(self.text@)
    }

    /// The keyword that `s` spells, if it is not blank. No text is refused for its length.
    pub fn new(s: &str) -> (r: Option<KeywordToken>)
        ensures
            match r {
                Some(t) => !blank(s@) && t@ == token_text(s@),
                None => blank(s@),
            },
    {
        let v = chars_of(s);
        KeywordToken::from_chars(&v)
    }

    /// The keyword that the characters spell, if they are not blank.
    pub fn from_chars(v: &[char]) -> (r: Option<KeywordToken>)
        ensures
            match r {
                Some(t) => !blank(v@) && t@ == token_text(v@),
                None => blank(v@),
            },
    {
        let t = trim_chars(v);
        if t.len() == 0 {
            return None;
        }
        proof {
            law_token_text_is_normal(v@);
        }
        let l = lower_chars(&t);
        let text = string_of(&l);
        Some(KeywordToken { text })
    }

    /// A keyword that is known to be in normal form.
    pub fn from_validated(text: String) -> (r: KeywordToken)
        requires
            valid_token(text@),
        ensures
            r@ == text@,
    {
        KeywordToken { text }
    }

    /// The text of the keyword.
    pub fn as_str(&self) -> (r: &str)
        ensures
            r@ == self@,
            valid_token(self@),
    {
        proof {
            use_type_invariant(self);
        }
        self.text.as_str()
    }

    /// The text of the keyword, by value.
    pub fn into_inner(self) -> (r: String)
        ensures
            r@ == self@,
            valid_token(r@),
    {
        proof {
            use_type_invariant(&self);
        }
        self.text
    }

    /// Whether two keywords are the same.
    pub fn same(&self, other: &KeywordToken) -> (r: bool)
        ensures
            r == (self@ == other@),
    {
        same_text(self.text.as_str(), other.text.as_str())
    }
}

impl Clone for KeywordToken {
    fn clone(&self) -> (r: Self)
        ensures
            r@ == self@,
    {
        proof {
            use_type_invariant(self);
        }
        KeywordToken { text: self.text.clone() }
    }
}

impl PartialEq for KeywordToken {
    fn eq(&self, other: &KeywordToken) -> (r: bool) {
        self.same(other)
    }
}

impl vstd::std_specs::cmp::PartialEqSpecImpl for KeywordToken {
    open spec fn obeys_eq_spec() -> bool {
        true
    }

    open spec fn eq_spec(&self, other: &KeywordToken) -> bool {
        self@ == other@
    }
}

/// The texts of a sequence of keywords.
pub open spec fn token_texts(v: Seq<KeywordToken>) -> Seq<Seq<char>> {
    v.map_values(|t: KeywordToken| t@)
}

/// Whether `t` is among the keywords.
pub fn has_token(v: &Vec<KeywordToken>, t: &KeywordToken) -> (r: bool)
    ensures
        r == token_texts(v@).contains(t@),
{
    let mut i: usize = 0;
    while i < v.len()
        invariant
            i <= v@.len(),
            forall|j: int| 0 <= j < i ==> v@[j]@ != t@,
        decreases v@.len() - i,
    {
        if v[i].same(t) {
            assert(token_texts(v@)[i as int] == t@);
            return true;
        }
        i += 1;
    }
    assert forall|j: int| 0 <= j < token_texts(v@).len() implies token_texts(v@)[j] != t@ by {
        assert(token_texts(v@)[j] == v@[j]@);
    }
    false
}

/// A copy of a vector of keywords.
pub fn copy_tokens(v: &Vec<KeywordToken>) -> (r: Vec<KeywordToken>)
    ensures
        token_texts(r@) == token_texts(v@),
{
    let mut out: Vec<KeywordToken> = Vec::new();
    let mut i: usize = 0;
    while i < v.len()
        invariant
            i <= v@.len(),
            token_texts(out@) == token_texts(v@.take(i as int)),
        decreases v@.len() - i,
    {
        let t = v[i].clone();
        let ghost before = token_texts(out@);
        out.push(t);
        i += 1;
        assert(token_texts(out@) =~= before.push(v@[i - 1]@));
        assert(token_texts(v@.take(i as int)) =~= token_texts(v@.take(i - 1)).push(v@[i - 1]@));
    }
    assert(v@.take(i as int) =~= v@);
    out
}

/// A set of keywords that remembers the order in which they came.
#[derive(Debug)]
pub struct KeywordSet {
    items: Vec<KeywordToken>,
}

impl View for KeywordSet {
    type V = Seq<Seq<char>>;

    closed spec fn view(&self) -> Seq<Seq<char>> {
        token_texts(self.items@)
    }
}

impl KeywordSet {
    #[verifier::type_invariant]
    spec fn inv(self) -> bool {
        token_texts(self.items@).no_duplicates()
    }

    /// The empty set.
    pub fn new() -> (r: KeywordSet)
        ensures
            r@ == Seq::<Seq<char>>::empty(),
    {
        let items: Vec<KeywordToken> = Vec::new();
        let r = KeywordSet { items };
        assert(r@ =~= Seq::<Seq<char>>::empty());
        r
    }

    /// The set of the given keywords.
    pub fn from_tokens(tokens: Vec<KeywordToken>) -> (r: KeywordSet)
        ensures
            r@ == distinct(token_texts(tokens@)),
    {
        let mut items: Vec<KeywordToken> = Vec::new();
        let mut i: usize = 0;
        let ghost all = token_texts(tokens@);
        assert(token_texts(items@) =~= Seq::<Seq<char>>::empty());
        while i < tokens.len()
            invariant
                i <= tokens@.len(),
                all == token_texts(tokens@),
                token_texts(items@) == distinct(all.take(i as int)),
            decreases tokens@.len() - i,
        {
            let ghost before = token_texts(items@);
            assert(all.take(i + 1).drop_last() =~= all.take(i as int));
            assert(all.take(i + 1).last() == tokens@[i as int]@);
            if !has_token(&items, &tokens[i]) {
                items.push(tokens[i].clone());
                assert(token_texts(items@) =~= before.push(tokens@[i as int]@));
            }
            i += 1;
        }
        assert(all.take(i as int) =~= all);
        proof {
            lemma_distinct(all);
        }
        KeywordSet { items }
    }

    /// Adds a keyword; false where the set already has it.
    pub fn insert(&mut self, token: KeywordToken) -> (r: bool)
        ensures
            r == !old(self)@.contains(token@),
            final(self)@ == (if r {
                old(self)@.push(token@)
            } else {
                old(self)@
            }),
    {
        proof {
            use_type_invariant(&*self);
        }
        if has_token(&self.items, &token) {
            return false;
        }
        let mut items: Vec<KeywordToken> = Vec::new();
        std::mem::swap(&mut items, &mut self.items);
        let ghost before = token_texts(items@);
        let ghost t = token@;
        items.push(token);
        assert(token_texts(items@) =~= before.push(t));
        self.items = items;
        true
    }

    /// Whether the set has `token`.
    pub fn contains(&self, token: &KeywordToken) -> (r: bool)
        ensures
            r == self@.contains(token@),
    {
        has_token(&self.items, token)
    }

    /// The number of keywords in the set.
    pub fn len(&self) -> (r: usize)
        ensures
            r == self@.len(),
    {
        self.items.len()
    }

    /// Whether the set holds nothing.
    pub fn is_empty(&self) -> (r: bool)
        ensures
            r == (self@.len() == 0),
    {
        self.items.len() == 0
    }

    /// The keywords in order.
    pub fn tokens(&self) -> (r: &Vec<KeywordToken>)
        ensures
            token_texts(r@) == self@,
            self@.no_duplicates(),
    {
        proof {
            use_type_invariant(self);
        }
        &self.items
    }
}

impl Clone for KeywordSet {
    fn clone(&self) -> (r: Self)
        ensures
            r@ == self@,
    {
        proof {
            use_type_invariant(self);
        }
        let items = copy_tokens(&self.items);
        KeywordSet { items }
    }
}

/// The normal form of a keyword has no spaces round it and no capital letters; it is read off
/// the text between those spaces, letter by letter.
pub proof fn law_normal_form(s: Seq<char>)
    ensures
        token_text(s).len() == trim(s).len(),
        forall|i: int|
            0 <= i < token_text(s).len() ==> !('A' <= #[trigger] token_text(s)[i]
                && token_text(s)[i] <= 'Z'),
        forall|i: int|
            0 <= i < token_text(s).len() && !('A' <= trim(s)[i] && trim(s)[i] <= 'Z')
                ==> #[trigger] token_text(s)[i] == trim(s)[i],
        forall|i: int|
            0 <= i < token_text(s).len() && 'A' <= trim(s)[i] && trim(s)[i] <= 'Z'
                ==> #[trigger] token_text(s)[i] as u32 == trim(s)[i] as u32 + 32,
{
    crate::text::law_lower_case(trim(s));
    assert forall|i: int| 0 <= i < token_text(s).len() implies !('A' <= #[trigger] token_text(s)[i]
        && token_text(s)[i] <= 'Z') && (!('A' <= trim(s)[i] && trim(s)[i] <= 'Z') ==> token_text(
        s,
    )[i] == trim(s)[i]) by {
        assert(token_text(s)[i] == lower(trim(s))[i]);
    }
}

/// Of keywords that come more than once the first is kept, and all the others: the same
/// keywords are there, each once, in the order in which they first come.
pub proof fn law_distinct_keeps_first(s: Seq<Seq<char>>)
    ensures
        distinct(s).no_duplicates(),
        forall|t: Seq<char>| #[trigger] distinct(s).contains(t) <==> s.contains(t),
        forall|a: int, b: int|
            0 <= a < b < distinct(s).len() ==> s.index_of_first(#[trigger] distinct(s)[a])->0
                < s.index_of_first(#[trigger] distinct(s)[b])->0,
    decreases s.len(),
{
    if s.len() > 0 {
        let front = s.drop_last();
        let d = distinct(front);
        let e = distinct(s);
        law_distinct_keeps_first(front);
        assert forall|t: Seq<char>| #[trigger] e.contains(t) <==> s.contains(t) by {
            if s.contains(t) {
                if t != s.last() {
                    let i = choose|i: int| 0 <= i < s.len() && s[i] == t;
                    assert(front[i] == t);
                    assert(front.contains(t));
                    assert(d.contains(t));
                }
                if d.contains(t) {
                    let j = choose|j: int| 0 <= j < d.len() && d[j] == t;
                    assert(e[j] == t);
                } else {
                    assert(e[d.len() as int] == t);
                }
            }
            if e.contains(t) {
                if t == s.last() {
                    assert(s[s.len() - 1] == t);
                } else {
                    let j = choose|j: int| 0 <= j < e.len() && e[j] == t;
                    assert(d[j] == t);
                    assert(d.contains(t));
                    assert(front.contains(t));
                    let i = choose|i: int| 0 <= i < front.len() && front[i] == t;
                    assert(s[i] == t);
                }
            }
        }
        assert forall|t: Seq<char>| #[trigger] front.contains(t) implies s.index_of_first(t)
            == front.index_of_first(t) by {
            lemma_first_in_front(s, t);
        }
        assert forall|a: int, b: int| 0 <= a < b < e.len() implies s.index_of_first(
            #[trigger] e[a],
        )->0 < s.index_of_first(#[trigger] e[b])->0 by {
            assert(e[a] == d[a]);
            assert(d.contains(d[a]));
            assert(front.contains(d[a]));
            if b < d.len() {
                assert(e[b] == d[b]);
                assert(d.contains(d[b]));
                assert(front.contains(d[b]));
            } else {
                assert(e[b] == s.last());
                assert(!front.contains(s.last()));
                lemma_first_is_last(s);
                front.index_of_first_ensures(d[a]);
            }
        }
    }
}

/// What comes before the last place comes first there too.
proof fn lemma_first_in_front(s: Seq<Seq<char>>, t: Seq<char>)
    requires
        s.len() > 0,
        s.drop_last().contains(t),
    ensures
        s.index_of_first(t) == s.drop_last().index_of_first(t),
{
    let front = s.drop_last();
    front.index_of_first_ensures(t);
    let i = choose|i: int| 0 <= i < front.len() && front[i] == t;
    assert(s[i] == t);
    s.index_of_first_ensures(t);
    let a = front.index_of_first(t)->0;
    let b = s.index_of_first(t)->0;
    assert(s[a] == t);
    if b < a {
        assert(front[b] == t);
    }
}

/// What comes only at the last place comes first there.
proof fn lemma_first_is_last(s: Seq<Seq<char>>)
    requires
        s.len() > 0,
        !s.drop_last().contains(s.last()),
    ensures
        s.index_of_first(s.last()) == Some(s.len() - 1),
{
    let front = s.drop_last();
    assert(s[s.len() - 1] == s.last());
    s.index_of_first_ensures(s.last());
    let b = s.index_of_first(s.last())->0;
    if b < s.len() - 1 {
        assert(front[b] == s.last());
    }
}

/// What a list of keywords says is what each of them says, in order.
pub proof fn law_keywords_are_seen(v: Seq<KeywordToken>)
    ensures
        token_texts(v).len() == v.len(),
        forall|i: int| 0 <= i < v.len() ==> #[trigger] token_texts(v)[i] == v[i]@,
{
}

/// A keyword is in normal form where it is not empty, begins and ends with no space, and has no
/// capital letter of the Latin alphabet.
pub proof fn law_what_is_in_normal_form(s: Seq<char>)
    ensures
        valid_token(s) <==> s.len() > 0 && !is_space(s[0]) && !is_space(s.last()) && forall|i: int|
            0 <= i < s.len() ==> !('A' <= #[trigger] s[i] && s[i] <= 'Z'),
{
    crate::text::law_lower_case(s);
    crate::text::law_trim_takes_spaces_off(s);
    if s.len() > 0 && !is_space(s[0]) && !is_space(s.last()) {
        lemma_trim_fixed(s);
    }
    if forall|i: int| 0 <= i < s.len() ==> !('A' <= #[trigger] s[i] && s[i] <= 'Z') {
        assert forall|i: int| 0 <= i < s.len() implies #[trigger] lower(s)[i] == s[i] by {
            lemma_same_code(lower(s)[i], s[i]);
        }
        assert(lower(s) =~= s);
    }
    if lower(s) == s {
        assert forall|i: int| 0 <= i < s.len() implies !('A' <= #[trigger] s[i] && s[i]
            <= 'Z') by {
            assert(lower(s)[i] == s[i]);
        }
    }
}

proof fn lemma_same_code(x: char, y: char)
    ensures
        x as u32 == y as u32 ==> x == y,
{
}

} // verus!
