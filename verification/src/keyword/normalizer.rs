//! Turning text into keywords.

use vstd::prelude::*;
use vstd::string::*;
use vstd::utf8::encode_utf8;

use crate::keyword::token::{distinct, has_token, law_token_text_is_normal, lemma_distinct,
    lemma_trim_ends, lemma_trim_fixed, token_text, token_texts, valid_token, KeywordSet,
    KeywordToken};
use crate::text::{alphanumeric, blank, chars_of, copy_text, lower, lower_char, part, same_chars,
    split, split_on, string_of, texts, trim, trim_chars};

verus! {

/// Turns text into a list of keywords in a fixed order.
pub trait KeywordNormalizer {
    /// The keywords of `input`.
    spec fn tokens(&self, input: Seq<char>) -> Seq<Seq<char>>;

    /// The keywords of `input`.
    fn normalize(&self, input: &str) -> (r: Vec<KeywordToken>)
        ensures
            token_texts(r@) == self.tokens(input@),
    ;
}

/// Whether `c` is a CJK ideograph of the basic block or of extension A.
pub open spec fn cjk(c: char) -> bool {
    ('\u{4E00}' <= c && c <= '\u{9FFF}') || ('\u{3400}' <= c && c <= '\u{4DBF}')
}

/// Whether `c` is a CJK ideograph of the basic block or of extension A.
pub fn is_cjk(c: char) -> (r: bool)
    ensures
        r == cjk(c),
{
    ('\u{4E00}' <= c && c <= '\u{9FFF}') || ('\u{3400}' <= c && c <= '\u{4DBF}')
}

/// Whether `c` is a comma, of either script.
pub open spec fn is_comma(c: char) -> bool {
    c == ',' || c == '，'
}

/// Whether a character of `s` is a letter or a digit.
pub open spec fn has_alphanumeric(s: Seq<char>) -> bool {
    exists|i: int| 0 <= i < s.len() && alphanumeric(#[trigger] s[i])
}

/// The keywords among the pieces: blank pieces and pieces of punctuation give none.
pub open spec fn piece_tokens(pieces: Seq<Seq<char>>) -> Seq<Seq<char>>
    decreases pieces.len(),
{
    if pieces.len() == 0 {
        Seq::empty()
    } else {
        let front = piece_tokens(pieces.drop_last());
        let p = trim(pieces.last());
        if p.len() > 0 && has_alphanumeric(p) {
            front.push(token_text(p))
        } else {
            front
        }
    }
}

/// Keywords between commas: trimmed, small letters, each once.
#[derive(Debug, Clone, Copy, Default)]
pub struct CommaSeparatedNormalizer;

fn any_alphanumeric(v: &[char]) -> (r: bool)
    ensures
        r == has_alphanumeric(v@),
{
    let mut i: usize = 0;
    while i < v.len()
        invariant
            i <= v@.len(),
            forall|j: int| 0 <= j < i ==> !alphanumeric(#[trigger] v@[j]),
        decreases v@.len() - i,
    {
        if v[i].is_alphanumeric() {
            return true;
        }
        i += 1;
    }
    false
}

impl KeywordNormalizer for CommaSeparatedNormalizer {
    open spec fn tokens(&self, input: Seq<char>) -> Seq<Seq<char>> {
        distinct(piece_tokens(split(input, |c: char| is_comma(c))))
    }

    fn normalize(&self, input: &str) -> (r: Vec<KeywordToken>) {
        let v = chars_of(input);
        let pieces = split_on(&v, ',', '，');
        let ghost all = pieces@.map_values(|p: Vec<char>| p@);
        assert((|c: char| c == ',' || c == '，') =~= (|c: char| is_comma(c)));
        let mut out: Vec<KeywordToken> = Vec::new();
        let mut i: usize = 0;
        assert(token_texts(out@) =~= distinct(piece_tokens(all.take(0))));
        while i < pieces.len()
            invariant
                i <= pieces@.len(),
                all == pieces@.map_values(|p: Vec<char>| p@),
                token_texts(out@) == distinct(piece_tokens(all.take(i as int))),
            decreases pieces@.len() - i,
        {
            let trimmed = trim_chars(&pieces[i]);
            let ghost before = token_texts(out@);
            proof {
                assert(all.take(i + 1).drop_last() =~= all.take(i as int));
                assert(all.take(i + 1).last() == pieces@[i as int]@);
            }
            if trimmed.len() > 0 && any_alphanumeric(&trimmed) {
                proof {
                    lemma_trim_ends(pieces@[i as int]@);
                    lemma_trim_fixed(trimmed@);
                    let earlier = piece_tokens(all.take(i as int));
                    assert(earlier.push(token_text(trimmed@)).drop_last() =~= earlier);
                }
                match KeywordToken::from_chars(&trimmed) {
                    Some(t) => {
                        if !has_token(&out, &t) {
                            let ghost text = t@;
                            out.push(t);
                            assert(token_texts(out@) =~= before.push(text));
                        }
                    },
                    None => {},
                }
            }
            i += 1;
        }
        assert(all.take(i as int) =~= all);
        out
    }
}

/// The token of a run of letters and digits; runs of less than two bytes give none.
pub open spec fn run_tokens(run: Seq<char>) -> Seq<Seq<char>> {
    if encode_utf8(run).len() >= 2 && !blank(run) {
        seq![token_text(run)]
    } else {
        Seq::empty()
    }
}

/// The length of the longest word of `dict`, of at most `n` characters and at least two,
/// that stands in `s` at position `i`.
pub open spec fn longest_word(dict: Set<Seq<char>>, s: Seq<char>, i: int, n: nat) -> Option<nat>
    decreases n,
{
    if n < 2 {
        None
    } else if dict.contains(s.subrange(i, i + n)) {
        Some(n)
    } else {
        longest_word(dict, s, i, (n - 1) as nat)
    }
}

/// The longest word is a word of the bounded length.
pub proof fn lemma_longest_word(dict: Set<Seq<char>>, s: Seq<char>, i: int, n: nat)
    ensures
        match longest_word(dict, s, i, n) {
            Some(k) => 2 <= k <= n && dict.contains(s.subrange(i, i + k)),
            None => true,
        },
    decreases n,
{
    if n >= 2 && !dict.contains(s.subrange(i, i + n)) {
        lemma_longest_word(dict, s, i, (n - 1) as nat);
    }
}

/// The tokens of `s` from position `i` on, where `run` is the run of letters and digits
/// that ends there.
///
/// At an ideograph the longest word of the dictionary is taken whole; where there is none,
/// the ideograph and the next one make a token. A run of letters and digits is a token.
pub open spec fn scan_tokens(
    dict: Set<Seq<char>>,
    s: Seq<char>,
    i: int,
    run: Seq<char>,
) -> Seq<Seq<char>>
    decreases s.len() - i,
{
    if i < 0 || i >= s.len() {
        run_tokens(run)
    } else if cjk(s[i]) {
        match longest_word(dict, s, i, (s.len() - i) as nat) {
            Some(n) => {
                proof {
                    lemma_longest_word(dict, s, i, (s.len() - i) as nat);
                }
                run_tokens(run) + seq![s.subrange(i, i + n)] + scan_tokens(
                    dict,
                    s,
                    i + n,
                    Seq::empty(),
                )
            },
            None => {
                if i + 1 < s.len() && cjk(s[i + 1]) {
                    run_tokens(run) + seq![s.subrange(i, i + 2)] + scan_tokens(
                        dict,
                        s,
                        i + 1,
                        Seq::empty(),
                    )
                } else {
                    run_tokens(run) + scan_tokens(dict, s, i + 1, Seq::empty())
                }
            },
        }
    } else if alphanumeric(s[i]) {
        scan_tokens(dict, s, i + 1, run.push(s[i]))
    } else {
        run_tokens(run) + scan_tokens(dict, s, i + 1, Seq::empty())
    }
}

/// A sequence of ideographs is a keyword in normal form.
proof fn lemma_cjk_valid(s: Seq<char>)
    requires
        s.len() > 0,
        forall|i: int| 0 <= i < s.len() ==> cjk(#[trigger] s[i]),
    ensures
        valid_token(s),
        token_text(s) == s,
        trim(s) == s,
{
    assert(cjk(s[0]) && cjk(s[s.len() - 1]));
    lemma_trim_fixed(s);
    assert forall|i: int| 0 <= i < s.len() implies lower_char(s[i]) == s[i] by {
        assert(cjk(s[i]));
    }
    assert(lower(s) =~= s);
}

/// Whether a dictionary keeps a word: two ideographs at least, and nothing else.
pub open spec fn usable_word(w: Seq<char>) -> bool {
    w.len() >= 2 && forall|i: int| 0 <= i < w.len() ==> cjk(#[trigger] w[i])
}

/// The words that a dictionary made of `keywords` holds.
pub open spec fn dictionary_words(keywords: Seq<Seq<char>>) -> Set<Seq<char>> {
    Set::new(
        |w: Seq<char>|
            usable_word(w) && exists|k: int| 0 <= k < keywords.len() && trim(#[trigger] keywords[k]) == w,
    )
}

/// The words of a dictionary, and the length of the longest.
#[derive(Debug)]
struct DictState {
    entries: Vec<Vec<char>>,
    max_word_len: usize,
}

/// The words of a vector of words.
spec fn word_seqs(v: Seq<Vec<char>>) -> Seq<Seq<char>> {
    v.map_values(|w: Vec<char>| w@)
}

impl DictState {
    spec fn words(&self) -> Set<Seq<char>> {
        word_seqs(self.entries@).to_set()
    }

    spec fn wf(&self) -> bool {
        &&& forall|k: int| 0 <= k < self.entries@.len() ==> usable_word(#[trigger] self.entries@[k]@)
        &&& forall|k: int|
            0 <= k < self.entries@.len() ==> (#[trigger] self.entries@[k]@).len() <= self.max_word_len
        &&& self.entries@.len() == 0 ==> self.max_word_len == 0
        &&& self.entries@.len() > 0 ==> exists|k: int|
            0 <= k < self.entries@.len() && (#[trigger] self.entries@[k]@).len() == self.max_word_len
    }

    fn copy(&self) -> (r: Self)
        ensures
            r.words() == self.words(),
            self.wf() ==> r.wf(),
    {
        let mut entries: Vec<Vec<char>> = Vec::new();
        let mut i: usize = 0;
        while i < self.entries.len()
            invariant
                i <= self.entries@.len(),
                entries@.len() == i,
                forall|k: int| 0 <= k < i ==> (#[trigger] entries@[k])@ == self.entries@[k]@,
            decreases self.entries@.len() - i,
        {
            let w = self.entries[i].clone();
            assert(w@ =~= self.entries@[i as int]@);
            entries.push(w);
            i += 1;
        }
        let r = DictState { entries, max_word_len: self.max_word_len };
        assert(word_seqs(r.entries@) =~= word_seqs(self.entries@));
        assert forall|k: int| 0 <= k < self.entries@.len() implies (#[trigger] self.entries@[k])@
            == r.entries@[k]@ by {
            assert(r.entries@[k]@ == self.entries@[k]@);
        }
        r
    }

    fn has(&self, w: &[char]) -> (r: bool)
        ensures
            r == self.words().contains(w@),
    {
        let mut i: usize = 0;
        while i < self.entries.len()
            invariant
                i <= self.entries@.len(),
                forall|j: int| 0 <= j < i ==> self.entries@[j]@ != w@,
            decreases self.entries@.len() - i,
        {
            if same_chars(&self.entries[i], w) {
                assert(word_seqs(self.entries@)[i as int] == w@);
                return true;
            }
            i += 1;
        }
        assert forall|j: int| 0 <= j < word_seqs(self.entries@).len() implies word_seqs(
            self.entries@,
        )[j] != w@ by {
            assert(word_seqs(self.entries@)[j] == self.entries@[j]@);
        }
        false
    }

    /// The dictionary of the usable words among `keywords`.
    fn from_keywords(keywords: &[String]) -> (r: DictState)
        ensures
            r.wf(),
            r.words() == dictionary_words(texts(keywords@)),
    {
        let ghost all = texts(keywords@);
        let mut d = DictState { entries: Vec::new(), max_word_len: 0 };
        let mut i: usize = 0;
        assert(d.words() =~= dictionary_words(all.take(0)));
        while i < keywords.len()
            invariant
                i <= keywords@.len(),
                all == texts(keywords@),
                d.wf(),
                d.words() == dictionary_words(all.take(i as int)),
            decreases keywords@.len() - i,
        {
            let raw = chars_of(keywords[i].as_str());
            let w = trim_chars(&raw);
            let ghost before = d;
            let ghost word = w@;
            let usable = usable(&w);
            if usable && !d.has(&w) {
                let n: usize = w.len();
                if n > d.max_word_len {
                    d.max_word_len = n;
                }
                d.entries.push(w);
                proof {
                    let m = before.entries@.len() as int;
                    assert(d.entries@[m]@ == word);
                    assert forall|k: int| 0 <= k < m implies #[trigger] d.entries@[k]@
                        == before.entries@[k]@ by {}
                    if n <= before.max_word_len {
                        let k = choose|k: int|
                            0 <= k < m && (#[trigger] before.entries@[k]@).len()
                                == before.max_word_len;
                        assert(d.entries@[k]@.len() == d.max_word_len);
                    }
                }
            }
            i += 1;
            proof {
                let now = dictionary_words(all.take(i as int));
                assert(all[i - 1] == keywords@[i - 1]@);
                assert forall|x: Seq<char>| d.words().contains(x) <==> now.contains(x) by {
                    let old_words = dictionary_words(all.take(i - 1));
                    lemma_words_after(before, d, word, x, usable);
                    if now.contains(x) {
                        let k = choose|k: int|
                            0 <= k < all.take(i as int).len() && trim(
                                #[trigger] all.take(i as int)[k],
                            ) == x;
                        if k < i - 1 {
                            assert(all.take(i - 1)[k] == all.take(i as int)[k]);
                            assert(old_words.contains(x));
                        }
                    }
                    if old_words.contains(x) {
                        let k = choose|k: int|
                            0 <= k < all.take(i - 1).len() && trim(#[trigger] all.take(i - 1)[k])
                                == x;
                        assert(all.take(i as int)[k] == all.take(i - 1)[k]);
                    }
                    if usable && x == word {
                        assert(trim(all.take(i as int)[i - 1]) == x);
                    }
                }
                assert(d.words() =~= now);
            }
        }
        assert(all.take(i as int) =~= all);
        d
    }

    /// Whether the dictionary has no words.
    fn is_empty(&self) -> (r: bool)
        ensures
            r == (self.words() == Set::<Seq<char>>::empty()),
    {
        proof {
            if self.entries@.len() > 0 {
                assert(word_seqs(self.entries@)[0] == self.entries@[0]@);
                assert(self.words().contains(self.entries@[0]@));
            } else {
                assert(self.words() =~= Set::<Seq<char>>::empty());
            }
        }
        self.entries.len() == 0
    }

    /// The longest word that stands in `chars` at `start`, and where it ends.
    fn try_match_longest(&self, chars: &[char], start: usize) -> (r: Option<(Vec<char>, usize)>)
        requires
            self.wf(),
            start <= chars@.len(),
        ensures
            match r {
                Some((w, next)) => {
                    &&& longest_word(
                        self.words(),
                        chars@,
                        start as int,
                        (chars@.len() - start) as nat,
                    ) == Some((next - start) as nat)
                    &&& start + 2 <= next <= chars@.len()
                    &&& w@ == chars@.subrange(start as int, next as int)
                    &&& usable_word(w@)
                },
                None => longest_word(
                    self.words(),
                    chars@,
                    start as int,
                    (chars@.len() - start) as nat,
                ) is None,
            },
    {
        let room: usize = chars.len() - start;
        let mut n: usize = if self.max_word_len < room {
            self.max_word_len
        } else {
            room
        };
        let ghost target = longest_word(self.words(), chars@, start as int, room as nat);
        proof {
            self.lemma_bounded(chars@, start as int, room as nat);
        }
        while n >= 2
            invariant
                self.wf(),
                start + n <= chars@.len() <= usize::MAX,
                target == longest_word(
                    self.words(),
                    chars@,
                    start as int,
                    (chars@.len() - start) as nat,
                ),
                target == longest_word(self.words(), chars@, start as int, n as nat),
            decreases n,
        {
            let w = part(chars, start, start + n);
            if self.has(&w) {
                proof {
                    let k = choose|k: int|
                        0 <= k < word_seqs(self.entries@).len() && word_seqs(self.entries@)[k] == w@;
                    assert(word_seqs(self.entries@)[k] == self.entries@[k]@);
                }
                return Some((w, start + n));
            }
            n -= 1;
        }
        None
    }

    /// No word is longer than the longest one.
    proof fn lemma_bounded(&self, s: Seq<char>, i: int, n: nat)
        requires
            self.wf(),
            0 <= i,
            i + n <= s.len(),
        ensures
            longest_word(self.words(), s, i, n) == longest_word(
                self.words(),
                s,
                i,
                if n < self.max_word_len {
                    n
                } else {
                    self.max_word_len as nat
                },
            ),
        decreases n,
    {
        if n > self.max_word_len && n >= 2 {
            let w = s.subrange(i, i + n);
            if self.words().contains(w) {
                let k = choose|k: int|
                    0 <= k < word_seqs(self.entries@).len() && word_seqs(self.entries@)[k] == w;
                assert(word_seqs(self.entries@)[k] == self.entries@[k]@);
                assert(false);
            }
            self.lemma_bounded(s, i, (n - 1) as nat);
        }
    }
}

/// What the words of a dictionary are after `word` was offered to it.
proof fn lemma_words_after(
    before: DictState,
    after: DictState,
    word: Seq<char>,
    x: Seq<char>,
    usable: bool,
)
    requires
        if usable && !before.words().contains(word) {
            &&& after.entries@.len() == before.entries@.len() + 1
            &&& after.entries@.last()@ == word
            &&& forall|k: int|
                0 <= k < before.entries@.len() ==> #[trigger] after.entries@[k]
                    == before.entries@[k]
        } else {
            after == before
        },
    ensures
        after.words().contains(x) <==> (before.words().contains(x) || (usable && x == word)),
{
    let a = word_seqs(after.entries@);
    let b = word_seqs(before.entries@);
    if usable && !before.words().contains(word) {
        assert(a =~= b.push(word));
        if a.contains(x) {
            let k = choose|k: int| 0 <= k < a.len() && a[k] == x;
            if k < b.len() {
                assert(b[k] == x);
            }
        }
        if b.contains(x) {
            let k = choose|k: int| 0 <= k < b.len() && b[k] == x;
            assert(a[k] == x);
        }
        assert(a[b.len() as int] == word);
    }
}

/// Whether a word is kept by a dictionary.
fn usable(w: &Vec<char>) -> (r: bool)
    ensures
        r == usable_word(w@),
{
    if w.len() < 2 {
        return false;
    }
    let mut i: usize = 0;
    while i < w.len()
        invariant
            i <= w@.len(),
            forall|j: int| 0 <= j < i ==> cjk(#[trigger] w@[j]),
        decreases w@.len() - i,
    {
        if !is_cjk(w[i]) {
            return false;
        }
        i += 1;
    }
    true
}

/// The tokens of text by pairs of ideographs and runs of letters and digits.
#[derive(Debug, Clone, Copy, Default)]
pub struct BigramNormalizer;

impl KeywordNormalizer for BigramNormalizer {
    open spec fn tokens(&self, input: Seq<char>) -> Seq<Seq<char>> {
        scan_tokens(Set::empty(), input, 0, Seq::empty())
    }

    fn normalize(&self, input: &str) -> (r: Vec<KeywordToken>) {
        let dict = DictState { entries: Vec::new(), max_word_len: 0 };
        assert(dict.words() =~= Set::<Seq<char>>::empty());
        bigram_normalize(input, &dict)
    }
}

/// Adds the token of a finished run, if it makes one.
fn flush_run(run: &Vec<char>, out: &mut Vec<KeywordToken>)
    ensures
        token_texts(final(out)@) == token_texts(old(out)@) + run_tokens(run@),
{
    let text = string_of(run);
    if text.as_str().as_bytes().len() >= 2 {
        match KeywordToken::from_chars(run) {
            Some(t) => {
                out.push(t);
                assert(token_texts(out@) =~= token_texts(old(out)@) + seq![token_text(run@)]);
                return;
            },
            None => {},
        }
    }
    assert(token_texts(out@) =~= token_texts(old(out)@) + Seq::<Seq<char>>::empty());
}

/// Adds a token of ideographs.
fn push_word(w: &Vec<char>, out: &mut Vec<KeywordToken>)
    requires
        usable_word(w@),
    ensures
        token_texts(final(out)@) == token_texts(old(out)@) + seq![w@],
{
    proof {
        lemma_cjk_valid(w@);
    }
    let text = string_of(w);
    out.push(KeywordToken::from_validated(text));
    assert(token_texts(out@) =~= token_texts(old(out)@) + seq![w@]);
}

/// Splits text into tokens with the help of a dictionary.
fn bigram_normalize(input: &str, dict: &DictState) -> (r: Vec<KeywordToken>)
    requires
        dict.wf(),
    ensures
        token_texts(r@) == scan_tokens(dict.words(), input@, 0, Seq::empty()),
{
    let chars = chars_of(input);
    let mut out: Vec<KeywordToken> = Vec::new();
    let mut run: Vec<char> = Vec::new();
    let mut i: usize = 0;
    let ghost goal = scan_tokens(dict.words(), input@, 0, Seq::empty());
    assert(token_texts(out@) + goal =~= goal);
    while i < chars.len()
        invariant
            i <= chars@.len(),
            chars@ == input@,
            dict.wf(),
            token_texts(out@) + scan_tokens(dict.words(), chars@, i as int, run@) == goal,
        decreases chars@.len() - i,
    {
        let c = chars[i];
        let ghost before = token_texts(out@);
        let ghost old_run = run@;
        if is_cjk(c) {
            flush_run(&run, &mut out);
            run = Vec::new();
            match dict.try_match_longest(&chars, i) {
                Some((word, next)) => {
                    push_word(&word, &mut out);
                    i = next;
                },
                None => {
                    if i + 1 < chars.len() && is_cjk(chars[i + 1]) {
                        let pair = part(&chars, i, i + 2);
                        push_word(&pair, &mut out);
                    }
                    i += 1;
                },
            }
            assert(token_texts(out@) + scan_tokens(dict.words(), chars@, i as int, run@) =~= goal);
        } else if c.is_alphanumeric() {
            run.push(c);
            i += 1;
        } else {
            flush_run(&run, &mut out);
            run = Vec::new();
            i += 1;
            assert(token_texts(out@) + scan_tokens(dict.words(), chars@, i as int, run@) =~= goal);
        }
    }
    flush_run(&run, &mut out);
    out
}

/// As `BigramNormalizer`, but a word of the dictionary is kept whole.
#[derive(Debug)]
pub struct BigramWithDictionaryNormalizer {
    dict: DictState,
}

impl BigramWithDictionaryNormalizer {
    #[verifier::type_invariant]
    spec fn inv(self) -> bool {
        self.dict.wf()
    }

    /// The words of the dictionary.
    pub closed spec fn words(&self) -> Set<Seq<char>> {
        self.dict.words()
    }

    /// A normaliser with the usable words among `keywords` for its dictionary.
    pub fn from_dictionary(keywords: &[String]) -> (r: Self)
        ensures
            r.words() == dictionary_words(texts(keywords@)),
    {
        BigramWithDictionaryNormalizer { dict: DictState::from_keywords(keywords) }
    }

    /// Whether the dictionary has no words.
    pub fn is_empty(&self) -> (r: bool)
        ensures
            r == (self.words() == Set::<Seq<char>>::empty()),
    {
        self.dict.is_empty()
    }

    /// The length of the longest word of the dictionary, zero where it has none.
    pub fn max_word_len(&self) -> (r: usize)
        ensures
            forall|w: Seq<char>| #[trigger] self.words().contains(w) ==> w.len() <= r,
            if self.words() == Set::<Seq<char>>::empty() {
                r == 0
            } else {
                exists|w: Seq<char>| #[trigger] self.words().contains(w) && w.len() == r
            },
    {
        proof {
            use_type_invariant(self);
            let d = self.dict;
            let e = word_seqs(d.entries@);
            assert forall|w: Seq<char>| #[trigger] self.words().contains(w) implies w.len()
                <= d.max_word_len by {
                let k = choose|k: int| 0 <= k < e.len() && e[k] == w;
                assert(e[k] == d.entries@[k]@);
            }
            if d.entries@.len() > 0 {
                let k = choose|k: int|
                    0 <= k < d.entries@.len() && (#[trigger] d.entries@[k]@).len()
                        == d.max_word_len;
                assert(e[k] == d.entries@[k]@);
                assert(self.words().contains(d.entries@[k]@));
            } else {
                assert(self.words() =~= Set::<Seq<char>>::empty());
            }
        }
        self.dict.max_word_len
    }
}

impl Clone for BigramWithDictionaryNormalizer {
    fn clone(&self) -> (r: Self)
        ensures
            r.words() == self.words(),
    {
        proof {
            use_type_invariant(self);
        }
        BigramWithDictionaryNormalizer { dict: self.dict.copy() }
    }
}

impl Default for BigramWithDictionaryNormalizer {
    /// A normaliser without a dictionary.
    fn default() -> (r: Self)
        ensures
            r.words() == Set::<Seq<char>>::empty(),
    {
        let dict = DictState { entries: Vec::new(), max_word_len: 0 };
        assert(dict.words() =~= Set::<Seq<char>>::empty());
        BigramWithDictionaryNormalizer { dict }
    }
}

impl KeywordNormalizer for BigramWithDictionaryNormalizer {
    open spec fn tokens(&self, input: Seq<char>) -> Seq<Seq<char>> {
        scan_tokens(self.words(), input, 0, Seq::empty())
    }

    fn normalize(&self, input: &str) -> (r: Vec<KeywordToken>) {
        proof {
            use_type_invariant(self);
        }
        bigram_normalize(input, &self.dict)
    }
}

/// With an empty dictionary, the normaliser does what `BigramNormalizer` does.
pub proof fn law_empty_dictionary_is_bigram(
    n: BigramWithDictionaryNormalizer,
    plain: BigramNormalizer,
    input: Seq<char>,
)
    requires
        n.words() == Set::<Seq<char>>::empty(),
    ensures
        n.tokens(input) == plain.tokens(input),
{
}

/// A word of the dictionary that makes up the whole text comes out whole.
pub proof fn law_word_kept_whole(n: BigramWithDictionaryNormalizer, w: Seq<char>)
    requires
        n.words().contains(w),
        usable_word(w),
    ensures
        n.tokens(w) == seq![w],
{
    assert(w.subrange(0, w.len() as int) =~= w);
    assert(cjk(w[0]));
    assert(encode_utf8(Seq::<char>::empty()).len() == 0);
    assert(scan_tokens(n.words(), w, w.len() as int, Seq::empty()) =~= Seq::empty());
    assert(n.tokens(w) =~= seq![w]);
}

/// The keywords between commas come out once each, in normal form.
pub proof fn law_comma_tokens_normal(n: CommaSeparatedNormalizer, input: Seq<char>)
    ensures
        n.tokens(input).no_duplicates(),
        forall|i: int| 0 <= i < n.tokens(input).len() ==> valid_token(#[trigger] n.tokens(input)[i]),
{
    let pieces = split(input, |c: char| is_comma(c));
    lemma_distinct(piece_tokens(pieces));
    lemma_piece_tokens_valid(pieces);
    assert forall|i: int| 0 <= i < n.tokens(input).len() implies valid_token(
        #[trigger] n.tokens(input)[i],
    ) by {
        let t = n.tokens(input)[i];
        assert(n.tokens(input).contains(t));
        assert(piece_tokens(pieces).contains(t));
    }
}

proof fn lemma_piece_tokens_valid(pieces: Seq<Seq<char>>)
    ensures
        forall|i: int|
            0 <= i < piece_tokens(pieces).len() ==> valid_token(#[trigger] piece_tokens(pieces)[i]),
    decreases pieces.len(),
{
    if pieces.len() > 0 {
        let front = piece_tokens(pieces.drop_last());
        lemma_piece_tokens_valid(pieces.drop_last());
        let p = trim(pieces.last());
        if p.len() > 0 {
            lemma_trim_ends(pieces.last());
            lemma_trim_fixed(p);
            law_token_text_is_normal(p);
        }
        assert forall|i: int| 0 <= i < piece_tokens(pieces).len() implies valid_token(
            #[trigger] piece_tokens(pieces)[i],
        ) by {
            if i < front.len() {
                assert(piece_tokens(pieces)[i] == front[i]);
            }
        }
    }
}

/// The texts of the keywords, each once, in the order of first occurrence.
pub fn dedup_to_strings(tokens: Vec<KeywordToken>) -> (r: Vec<String>)
    ensures
        texts(r@) == distinct(token_texts(tokens@)),
{
    let set = KeywordSet::from_tokens(tokens);
    let items = set.tokens();
    let mut out: Vec<String> = Vec::new();
    let mut i: usize = 0;
    while i < items.len()
        invariant
            i <= items@.len(),
            texts(out@) == token_texts(items@).take(i as int),
        decreases items@.len() - i,
    {
        let ghost before = texts(out@);
        let s = copy_text(items[i].as_str());
        out.push(s);
        i += 1;
        assert(texts(out@) =~= before.push(items@[i - 1]@));
        assert(token_texts(items@).take(i as int) =~= token_texts(items@).take(i - 1).push(
            items@[i - 1]@,
        ));
    }
    assert(token_texts(items@).take(i as int) =~= token_texts(items@));
    out
}

/// The keywords of a text with commas are what stands between them, in either script: every
/// piece with a letter or a digit in it gives one, without the spaces round it and in lower case,
/// and of equal ones the first counts.
pub proof fn law_pieces_between_commas(n: CommaSeparatedNormalizer, input: Seq<char>)
    ensures
        n.tokens(input) == distinct(
            split(input, |c: char| c == ',' || c == '，').filter(
                |p: Seq<char>|
                    exists|i: int| 0 <= i < trim(p).len() && alphanumeric(#[trigger] trim(p)[i]),
            ).map_values(|p: Seq<char>| lower(trim(p))),
        ),
{
    let f = |c: char| is_comma(c);
    let g = |c: char| c == ',' || c == '，';
    assert(f =~= g);
    lemma_pieces(split(input, f));
}

proof fn lemma_pieces(pieces: Seq<Seq<char>>)
    ensures
        piece_tokens(pieces) == pieces.filter(
            |p: Seq<char>|
                exists|i: int| 0 <= i < trim(p).len() && alphanumeric(#[trigger] trim(p)[i]),
        ).map_values(|p: Seq<char>| lower(trim(p))),
    decreases pieces.len(),
{
    reveal(Seq::filter);
    let keep = |p: Seq<char>|
        exists|i: int| 0 <= i < trim(p).len() && alphanumeric(#[trigger] trim(p)[i]);
    let f = |p: Seq<char>| lower(trim(p));
    if pieces.len() > 0 {
        lemma_pieces(pieces.drop_last());
        let front = pieces.drop_last().filter(keep);
        let p = trim(pieces.last());
        assert(keep(pieces.last()) == (p.len() > 0 && has_alphanumeric(p)));
        if keep(pieces.last()) {
            lemma_trim_ends(pieces.last());
            lemma_trim_fixed(p);
            assert(front.push(pieces.last()).map_values(f) =~= front.map_values(f).push(
                f(pieces.last()),
            ));
        }
    } else {
        assert(pieces.filter(keep).map_values(f) =~= Seq::<Seq<char>>::empty());
    }
}

proof fn lemma_word_shift(dict: Set<Seq<char>>, s: Seq<char>, i: int, k: int, n: nat)
    requires
        0 <= i,
        0 <= k,
        i + k + n <= s.len(),
    ensures
        longest_word(dict, s.skip(i), k, n) == longest_word(dict, s, i + k, n),
    decreases n,
{
    if n >= 2 {
        assert(s.skip(i).subrange(k, k + n) =~= s.subrange(i + k, i + k + n));
        lemma_word_shift(dict, s, i, k, (n - 1) as nat);
    }
}

/// What comes out from a place on does not depend on what stands before it, but for the run that
/// ends there.
proof fn lemma_scan_shift(dict: Set<Seq<char>>, s: Seq<char>, i: int, k: int, run: Seq<char>)
    requires
        0 <= i <= s.len(),
        0 <= k,
    ensures
        scan_tokens(dict, s.skip(i), k, run) == scan_tokens(dict, s, i + k, run),
    decreases s.len() - i - k,
{
    let r = s.skip(i);
    if k < r.len() {
        assert(r[k] == s[i + k]);
        lemma_word_shift(dict, s, i, k, (r.len() - k) as nat);
        lemma_longest_word(dict, r, k, (r.len() - k) as nat);
        lemma_scan_shift(dict, s, i, k + 1, Seq::empty());
        lemma_scan_shift(dict, s, i, k + 1, run.push(r[k]));
        if k + 1 < r.len() {
            assert(r.subrange(k, k + 2) =~= s.subrange(i + k, i + k + 2));
            assert(r[k + 1] == s[i + k + 1]);
        }
        match longest_word(dict, r, k, (r.len() - k) as nat) {
            Some(n) => {
                assert(r.subrange(k, k + n) =~= s.subrange(i + k, i + k + n));
                lemma_scan_shift(dict, s, i, k + n, Seq::empty());
            },
            None => {},
        }
    }
}

/// What is found is the longest word of the dictionary that stands there.
pub proof fn law_longest_word_is_taken(dict: Set<Seq<char>>, s: Seq<char>, i: int, n: nat)
    ensures
        longest_word(dict, s, i, n) matches Some(k) ==> 2 <= k <= n && dict.contains(
            s.subrange(i, i + k),
        ) && forall|j: int| k < j <= n ==> !dict.contains(#[trigger] s.subrange(i, i + j)),
        longest_word(dict, s, i, n) is None ==> forall|j: int|
            2 <= j <= n ==> !dict.contains(#[trigger] s.subrange(i, i + j)),
    decreases n,
{
    if n >= 2 && !dict.contains(s.subrange(i, i + n)) {
        law_longest_word_is_taken(dict, s, i, (n - 1) as nat);
        assert forall|j: int| 2 <= j <= n && j > n - 1 implies !dict.contains(
            #[trigger] s.subrange(i, i + j),
        ) by {
            assert(j == n);
        }
    }
}

/// An empty text gives nothing.
pub proof fn law_empty_text_gives_nothing(n: BigramWithDictionaryNormalizer)
    ensures
        n.tokens(Seq::empty()).len() == 0,
{
    assert(encode_utf8(Seq::<char>::empty()).len() == 0);
}

/// A character that is no ideograph, no letter and no digit at the beginning of a text gives
/// nothing.
pub proof fn law_separators_give_nothing(n: BigramWithDictionaryNormalizer, s: Seq<char>)
    requires
        s.len() > 0,
        !cjk(s[0]),
        !alphanumeric(s[0]),
    ensures
        n.tokens(s) == n.tokens(s.skip(1)),
{
    assert(encode_utf8(Seq::<char>::empty()).len() == 0);
    lemma_scan_shift(n.words(), s, 1, 0, Seq::empty());
    assert(n.tokens(s) =~= n.tokens(s.skip(1)));
}

/// A run of letters and digits at the beginning of a text, which ends there or before an ideograph
/// or a separator, gives one keyword in normal form where it has at least two bytes.
pub proof fn law_runs_are_keywords(
    n: BigramWithDictionaryNormalizer,
    run: Seq<char>,
    s: Seq<char>,
)
    requires
        forall|i: int| 0 <= i < run.len() ==> !cjk(#[trigger] run[i]) && alphanumeric(run[i]),
        s.len() > 0 ==> cjk(s[0]) || !alphanumeric(s[0]),
    ensures
        n.tokens(run + s) == (if encode_utf8(run).len() >= 2 && !blank(run) {
            seq![lower(trim(run))]
        } else {
            Seq::empty()
        }) + n.tokens(s),
{
    let all = run + s;
    lemma_run(n.words(), run, s, 0);
    assert(run.take(0) =~= Seq::<char>::empty());
    lemma_scan_shift(n.words(), all, run.len() as int, 0, run);
    lemma_scan_shift(n.words(), all, run.len() as int, 0, Seq::empty());
    assert(all.skip(run.len() as int) =~= s);
    lemma_after_run(n.words(), s, run);
}

proof fn lemma_run(dict: Set<Seq<char>>, run: Seq<char>, s: Seq<char>, k: int)
    requires
        0 <= k <= run.len(),
        forall|i: int| 0 <= i < run.len() ==> !cjk(#[trigger] run[i]) && alphanumeric(run[i]),
    ensures
        scan_tokens(dict, run + s, k, run.take(k)) == scan_tokens(
            dict,
            run + s,
            run.len() as int,
            run,
        ),
    decreases run.len() - k,
{
    if k < run.len() {
        assert((run + s)[k] == run[k]);
        assert(!cjk(run[k]) && alphanumeric(run[k]));
        assert(run.take(k).push(run[k]) =~= run.take(k + 1));
        lemma_run(dict, run, s, k + 1);
    } else {
        assert(run.take(k) =~= run);
    }
}

proof fn lemma_after_run(dict: Set<Seq<char>>, s: Seq<char>, run: Seq<char>)
    requires
        s.len() > 0 ==> cjk(s[0]) || !alphanumeric(s[0]),
    ensures
        scan_tokens(dict, s, 0, run) == run_tokens(run) + scan_tokens(dict, s, 0, Seq::empty()),
{
    assert(encode_utf8(Seq::<char>::empty()).len() == 0);
    let none = run_tokens(Seq::empty());
    assert(none =~= Seq::<Seq<char>>::empty());
    assert(scan_tokens(dict, s, 0, run) =~= run_tokens(run) + scan_tokens(
        dict,
        s,
        0,
        Seq::empty(),
    ));
}

/// At an ideograph the longest word of the dictionary that stands there is a keyword, and the
/// text goes on behind it.
pub proof fn law_longest_words_are_keywords(
    n: BigramWithDictionaryNormalizer,
    s: Seq<char>,
    m: int,
)
    requires
        2 <= m <= s.len(),
        cjk(s[0]),
        n.words().contains(s.take(m)),
        forall|k: int| m < k <= s.len() ==> !n.words().contains(#[trigger] s.take(k)),
    ensures
        n.tokens(s) == seq![s.take(m)] + n.tokens(s.skip(m)),
{
    assert(encode_utf8(Seq::<char>::empty()).len() == 0);
    law_longest_word_is_taken(n.words(), s, 0, s.len());
    assert(s.subrange(0, m) =~= s.take(m));
    match longest_word(n.words(), s, 0, s.len()) {
        Some(k) => {
            assert(s.subrange(0, k as int) =~= s.take(k as int));
            if k < m {
                assert(!n.words().contains(s.subrange(0, 0 + m)));
            }
            assert(k == m);
        },
        None => {
            assert(!n.words().contains(s.subrange(0, 0 + m)));
        },
    }
    lemma_scan_shift(n.words(), s, m, 0, Seq::empty());
    assert(n.tokens(s) =~= seq![s.take(m)] + n.tokens(s.skip(m)));
}

/// At an ideograph at which no word of the dictionary stands, the ideograph and the next one are
/// a keyword, and the text goes on at the next one; without a next one there is no keyword.
pub proof fn law_pairs_of_ideographs(n: BigramWithDictionaryNormalizer, s: Seq<char>)
    requires
        s.len() > 0,
        cjk(s[0]),
        forall|k: int| 2 <= k <= s.len() ==> !n.words().contains(#[trigger] s.take(k)),
    ensures
        s.len() > 1 && cjk(s[1]) ==> n.tokens(s) == seq![s.take(2)] + n.tokens(s.skip(1)),
        s.len() == 1 || !cjk(s[1]) ==> n.tokens(s) == n.tokens(s.skip(1)),
{
    assert(encode_utf8(Seq::<char>::empty()).len() == 0);
    law_longest_word_is_taken(n.words(), s, 0, s.len());
    match longest_word(n.words(), s, 0, s.len()) {
        Some(k) => {
            assert(s.subrange(0, k as int) =~= s.take(k as int));
        },
        None => {},
    }
    lemma_scan_shift(n.words(), s, 1, 0, Seq::empty());
    if s.len() > 1 && cjk(s[1]) {
        assert(s.subrange(0, 2) =~= s.take(2));
        assert(n.tokens(s) =~= seq![s.take(2)] + n.tokens(s.skip(1)));
    } else {
        assert(n.tokens(s) =~= n.tokens(s.skip(1)));
    }
}

/// A text of ideographs alone gives every two that stand side by side, in order.
pub proof fn law_bigrams(n: BigramNormalizer, s: Seq<char>)
    requires
        forall|i: int| 0 <= i < s.len() ==> cjk(#[trigger] s[i]),
    ensures
        n.tokens(s) == Seq::new(
            if s.len() == 0 {
                0
            } else {
                (s.len() - 1) as nat
            },
            |i: int| s.subrange(i, i + 2),
        ),
{
    lemma_bigrams(s, 0);
    let all = Seq::new(
        if s.len() == 0 {
            0
        } else {
            (s.len() - 1) as nat
        },
        |i: int| s.subrange(i, i + 2),
    );
    assert(all.skip(0) =~= all);
}

proof fn lemma_bigrams(s: Seq<char>, k: int)
    requires
        0 <= k <= s.len(),
        forall|i: int| 0 <= i < s.len() ==> cjk(#[trigger] s[i]),
    ensures
        k < s.len() ==> scan_tokens(Set::empty(), s, k, Seq::empty()) == Seq::new(
            (s.len() - 1) as nat,
            |i: int| s.subrange(i, i + 2),
        ).skip(k),
        k == s.len() ==> scan_tokens(Set::empty(), s, k, Seq::empty()).len() == 0,
    decreases s.len() - k,
{
    assert(encode_utf8(Seq::<char>::empty()).len() == 0);
    if k < s.len() {
        let all = Seq::new((s.len() - 1) as nat, |i: int| s.subrange(i, i + 2));
        lemma_bigrams(s, k + 1);
        lemma_longest_word(Set::empty(), s, k, (s.len() - k) as nat);
        assert(cjk(s[k]));
        if k + 1 < s.len() {
            assert(cjk(s[k + 1]));
            assert(seq![s.subrange(k, k + 2)] + all.skip(k + 1) =~= all.skip(k));
        }
        assert(scan_tokens(Set::empty(), s, k, Seq::empty()) =~= all.skip(k));
    }
}

/// The words of a dictionary are the keywords, without the spaces round them, that have at least
/// two characters, all of them ideographs.
pub proof fn law_words_are_ideographs(keywords: Seq<Seq<char>>, w: Seq<char>)
    ensures
        dictionary_words(keywords).contains(w) <==> w.len() >= 2 && (forall|i: int|
            0 <= i < w.len() ==> (0x4E00 <= (#[trigger] w[i]) as u32 <= 0x9FFF || 0x3400 <= w[i] as u32
                <= 0x4DBF)) && exists|k: int|
            0 <= k < keywords.len() && trim(#[trigger] keywords[k]) == w,
{
    if usable_word(w) {
        assert forall|i: int| 0 <= i < w.len() implies (0x4E00 <= (#[trigger] w[i]) as u32 <= 0x9FFF
            || 0x3400 <= w[i] as u32 <= 0x4DBF) by {
            assert(cjk(w[i]));
            law_ideographs(w[i]);
        }
    }
    if forall|i: int|
        0 <= i < w.len() ==> (0x4E00 <= (#[trigger] w[i]) as u32 <= 0x9FFF || 0x3400 <= w[i] as u32
            <= 0x4DBF) {
        assert forall|i: int| 0 <= i < w.len() implies cjk(#[trigger] w[i]) by {
            law_ideographs(w[i]);
        }
    }
}

/// The ideographs are those of the basic block and of extension A.
pub proof fn law_ideographs(c: char)
    ensures
        cjk(c) <==> 0x4E00 <= c as u32 <= 0x9FFF || 0x3400 <= c as u32 <= 0x4DBF,
{
}

} // verus!
