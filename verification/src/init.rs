//! Cold start of the assistant: reading its persona file, and turning it into a
//! structured portrait.

pub mod cold_start;

use vstd::prelude::*;

use crate::text::{find_char, first_at, is_space, law_first_place, law_trim_takes_spaces_off, lines,
    lines_of, part, spells, string_of, trim, trim_chars, trim_end, trim_end_chars, append_chars};

verus! {

/// What a persona file says.
#[derive(Debug, Clone)]
pub struct PersonaToml {
    pub assistant_name: String,
    pub user_name: String,
    pub blocks: Vec<(String, String)>,
}

/// The texts of named blocks.
pub open spec fn block_texts(blocks: Seq<(String, String)>) -> Seq<(Seq<char>, Seq<char>)> {
    blocks.map_values(|b: (String, String)| (b.0@, b.1@))
}

/// Why a persona file is refused.
#[derive(Debug, Clone, Copy, PartialEq, Eq, Structural)]
pub enum PersonaTomlError {
    /// A multi-line string is never closed.
    UnclosedMultiline,
    /// The section `[identity]` gives no `assistant_name`.
    MissingAssistantName,
    /// A value is a single quotation mark.
    LoneQuote,
}

impl PersonaTomlError {
    /// The message shown for the error.
    pub open spec fn text(self) -> Seq<char> {
        match self {
            PersonaTomlError::UnclosedMultiline =>
                "persona.toml 中存在未闭合的多行字符串 (\"\"\")"@,
            PersonaTomlError::MissingAssistantName => "persona.toml 缺少 [identity] assistant_name"@,
            PersonaTomlError::LoneQuote => "persona.toml 中存在未闭合的引号 (\")"@,
        }
    }

    /// The message shown for the error.
    pub fn message(&self) -> (r: &'static str)
        ensures
            r@ == self.text(),
    {
        match self {
            PersonaTomlError::UnclosedMultiline =>
                "persona.toml 中存在未闭合的多行字符串 (\"\"\")",
            PersonaTomlError::MissingAssistantName => "persona.toml 缺少 [identity] assistant_name",
            PersonaTomlError::LoneQuote => "persona.toml 中存在未闭合的引号 (\")",
        }
    }
}

/// How far a persona file has been read.
#[verifier::ext_equal]
pub struct TomlScan {
    /// The section that the last header opened.
    pub section: Option<Seq<char>>,
    /// The key and the lines so far of the multi-line string that is being read.
    pub open: Option<(Seq<char>, Seq<char>)>,
    pub assistant_name: Seq<char>,
    pub user_name: Seq<char>,
    pub blocks: Seq<(Seq<char>, Seq<char>)>,
    /// Whether some value was a single quotation mark, which is no value.
    pub lone_quote: bool,
}

impl TomlScan {
    pub open spec fn start() -> TomlScan {
        TomlScan {
            section: None,
            open: None,
            assistant_name: Seq::empty(),
            user_name: Seq::empty(),
            blocks: Seq::empty(),
            lone_quote: false,
        }
    }
}

/// Whether a line says nothing: it is blank or a comment.
pub open spec fn silent_line(line: Seq<char>) -> bool {
    trim(line).len() == 0 || trim(line)[0] == '#'
}

/// A value without the quotation marks around it.
pub open spec fn unquoted(raw: Seq<char>) -> Seq<char> {
    if raw.len() > 1 && raw[0] == '"' && raw.last() == '"' {
        raw.subrange(1, raw.len() - 1)
    } else {
        raw
    }
}

/// The effect of `key = value` in the current section.
pub open spec fn assign(st: TomlScan, key: Seq<char>, value: Seq<char>) -> TomlScan {
    if st.section == Some("identity"@) {
        if key == "assistant_name"@ {
            TomlScan { assistant_name: value, ..st }
        } else if key == "user_name"@ {
            TomlScan { user_name: value, ..st }
        } else {
            st
        }
    } else if st.section == Some("blocks"@) {
        TomlScan { blocks: st.blocks.push((key, value)), ..st }
    } else {
        st
    }
}

/// The effect of the end of a multi-line string: in the section `[blocks]` it is a block, and
/// elsewhere it is nothing.
pub open spec fn close_text(st: TomlScan, key: Seq<char>, value: Seq<char>) -> TomlScan {
    if st.section == Some("blocks"@) {
        TomlScan { open: None, blocks: st.blocks.push((key, value)), ..st }
    } else {
        TomlScan { open: None, ..st }
    }
}

/// The effect of one line.
pub open spec fn scan_line(st: TomlScan, line: Seq<char>) -> TomlScan {
    let t = trim(line);
    if silent_line(line) {
        st
    } else if st.open is Some {
        let (key, value) = st.open->0;
        if t == "\"\"\""@ {
            close_text(st, key, trim_end(value))
        } else if value.len() == 0 {
            TomlScan { open: Some((key, line)), ..st }
        } else {
            TomlScan { open: Some((key, value.push('\n') + line)), ..st }
        }
    } else if t[0] == '[' && t.last() == ']' {
        TomlScan { section: Some(t.subrange(1, t.len() - 1)), ..st }
    } else if first_at(t, '=') < t.len() {
        let key = trim(t.take(first_at(t, '=')));
        let raw = trim(t.skip(first_at(t, '=') + 1));
        if raw == "\"\"\""@ {
            TomlScan { open: Some((key, Seq::empty())), ..st }
        } else if raw == seq!['"'] {
            TomlScan { lone_quote: true, ..st }
        } else {
            assign(st, key, unquoted(raw))
        }
    } else {
        st
    }
}

/// What has been read after all of `ls`.
pub open spec fn scan_lines(ls: Seq<Seq<char>>) -> TomlScan
    decreases ls.len(),
{
    if ls.len() == 0 {
        TomlScan::start()
    } else {
        scan_line(scan_lines(ls.drop_last()), ls.last())
    }
}

/// What reading the whole file gives.
pub open spec fn toml_scan(content: Seq<char>) -> TomlScan {
    scan_lines(lines(content))
}

/// Why the file is refused, if it is.
pub open spec fn toml_error(content: Seq<char>) -> Option<PersonaTomlError> {
    if toml_scan(content).lone_quote {
        Some(PersonaTomlError::LoneQuote)
    } else if toml_scan(content).open is Some {
        Some(PersonaTomlError::UnclosedMultiline)
    } else if toml_scan(content).assistant_name.len() == 0 {
        Some(PersonaTomlError::MissingAssistantName)
    } else {
        None
    }
}

/// How far a persona file has been read.
struct Scanner {
    section: Option<Vec<char>>,
    open: Option<(Vec<char>, Vec<char>)>,
    assistant_name: Vec<char>,
    user_name: Vec<char>,
    blocks: Vec<(String, String)>,
    lone_quote: bool,
}

impl Scanner {
    spec fn view(&self) -> TomlScan {
        TomlScan {
            section: match self.section {
                Some(s) => Some(s@),
                None => None,
            },
            open: match self.open {
                Some((k, v)) => Some((k@, v@)),
                None => None,
            },
            assistant_name: self.assistant_name@,
            user_name: self.user_name@,
            blocks: block_texts(self.blocks@),
            lone_quote: self.lone_quote,
        }
    }

    fn add_block(&mut self, key: &[char], value: &[char])
        ensures
            final(self)@ == (TomlScan { blocks: old(self)@.blocks.push((key@, value@)), ..old(self)@ }),
    {
        let k = string_of(key);
        let v = string_of(value);
        self.blocks.push((k, v));
        assert(self@.blocks =~= old(self)@.blocks.push((key@, value@)));
        assert(self@ =~= (TomlScan { blocks: old(self)@.blocks.push((key@, value@)), ..old(self)@ }));
    }

    fn assign(&mut self, key: &[char], value: Vec<char>)
        ensures
            final(self)@ == assign(old(self)@, key@, value@),
    {
        let (identity, blocks) = match &self.section {
            Some(s) => (spells(s, "identity"), spells(s, "blocks")),
            None => (false, false),
        };
        if identity {
            if spells(key, "assistant_name") {
                self.assistant_name = value;
            } else if spells(key, "user_name") {
                self.user_name = value;
            }
        } else if blocks {
            self.add_block(key, &value);
        }
        assert(self@ =~= assign(old(self)@, key@, value@));
    }

    fn line(&mut self, line: &[char])
        ensures
            final(self)@ == scan_line(old(self)@, line@),
    {
        let t = trim_chars(line);
        if t.len() == 0 || t[0] == '#' {
            return;
        }
        let opened = self.open.take();
        match opened {
            Some((key, mut value)) => {
                if spells(&t, "\"\"\"") {
                    let body = trim_end_chars(&value);
                    assert(self@ =~= (TomlScan { open: None, ..old(self)@ }));
                    let blocks = match &self.section {
                        Some(s) => spells(s, "blocks"),
                        None => false,
                    };
                    if blocks {
                        self.add_block(&key, &body);
                    }
                } else {
                    let ghost before = value@;
                    if value.len() > 0 {
                        value.push('\n');
                    }
                    append_chars(&mut value, line);
                    assert(before.len() == 0 ==> value@ =~= line@);
                    self.open = Some((key, value));
                }
                assert(self@ =~= scan_line(old(self)@, line@));
            },
            None => {
                assert(self@ =~= old(self)@);
                let n: usize = t.len();
                if t[0] == '[' && t[n - 1] == ']' {
                    let name = part(&t, 1, n - 1);
                    self.section = Some(name);
                    assert(self@ =~= scan_line(old(self)@, line@));
                    return;
                }
                let e: usize = find_char(&t, '=');
                if e < n {
                    let left = part(&t, 0, e);
                    assert(left@ =~= t@.take(e as int));
                    let right = part(&t, e + 1, n);
                    assert(right@ =~= t@.skip(e + 1));
                    let key = trim_chars(&left);
                    let raw = trim_chars(&right);
                    let m: usize = raw.len();
                    if spells(&raw, "\"\"\"") {
                        self.open = Some((key, Vec::new()));
                        assert(self@ =~= scan_line(old(self)@, line@));
                    } else if m == 1 && raw[0] == '"' {
                        self.lone_quote = true;
                        assert(raw@ =~= seq!['"']);
                        assert(self@ =~= scan_line(old(self)@, line@));
                    } else {
                        let value: Vec<char> = if m > 1 && raw[0] == '"' && raw[m - 1] == '"' {
                            part(&raw, 1, m - 1)
                        } else {
                            raw
                        };
                        self.assign(&key, value);
                    }
                }
            },
        }
    }
}

/// Reads all lines of a persona file.
fn scan(content: &str) -> (r: Scanner)
    ensures
        r@ == toml_scan(content@),
{
    let ls = lines_of(content);
    let ghost all = lines(content@);
    let mut st = Scanner {
        section: None,
        open: None,
        assistant_name: Vec::new(),
        user_name: Vec::new(),
        blocks: Vec::new(),
        lone_quote: false,
    };
    let mut i: usize = 0;
    assert(st@ =~= TomlScan::start());
    while i < ls.len()
        invariant
            i <= ls@.len(),
            all == ls@.map_values(|p: Vec<char>| p@),
            st@ == scan_lines(all.take(i as int)),
        decreases ls@.len() - i,
    {
        st.line(&ls[i]);
        assert(all.take(i + 1).drop_last() =~= all.take(i as int));
        assert(all.take(i + 1).last() == ls@[i as int]@);
        i += 1;
    }
    assert(all.take(i as int) =~= all);
    st
}

/// Reads a persona file.
///
/// The section `[identity]` gives `assistant_name` and `user_name`, the section `[blocks]`
/// named texts; in `[blocks]` a text in three quotation marks runs over several lines. Blank
/// lines and lines that start with `#` are passed over, and so is what stands in other sections.
pub fn parse_persona_toml(content: &str) -> (r: Result<PersonaToml, PersonaTomlError>)
    ensures
        match r {
            Ok(p) => {
                &&& toml_error(content@) is None
                &&& p.assistant_name@ == toml_scan(content@).assistant_name
                &&& p.user_name@ == toml_scan(content@).user_name
                &&& block_texts(p.blocks@) == toml_scan(content@).blocks
            },
            Err(e) => toml_error(content@) == Some(e),
        },
{
    let st = scan(content);
    if st.lone_quote {
        return Err(PersonaTomlError::LoneQuote);
    }
    if st.open.is_some() {
        return Err(PersonaTomlError::UnclosedMultiline);
    }
    if st.assistant_name.len() == 0 {
        return Err(PersonaTomlError::MissingAssistantName);
    }
    let assistant_name = string_of(&st.assistant_name);
    let user_name = string_of(&st.user_name);
    Ok(PersonaToml { assistant_name, user_name, blocks: st.blocks })
}

/// A blank line or a comment changes nothing of what a file says, wherever it stands.
pub proof fn law_silent_line_says_nothing(before: Seq<Seq<char>>, line: Seq<char>, after: Seq<Seq<char>>)
    requires
        silent_line(line),
    ensures
        scan_lines(before.push(line) + after) == scan_lines(before + after),
    decreases after.len(),
{
    let with = before.push(line) + after;
    let without = before + after;
    if after.len() == 0 {
        assert(with.drop_last() =~= before);
        assert(without =~= before);
    } else {
        law_silent_line_says_nothing(before, line, after.drop_last());
        assert(with.drop_last() =~= before.push(line) + after.drop_last());
        assert(without.drop_last() =~= before + after.drop_last());
    }
}

/// A name is written on one line: the end of a multi-line string names nobody.
pub proof fn law_long_texts_name_nobody(st: TomlScan, line: Seq<char>)
    requires
        st.open is Some,
    ensures
        scan_line(st, line).assistant_name == st.assistant_name,
        scan_line(st, line).user_name == st.user_name,
{
}

/// A line outside of the section `[blocks]` adds no block.
pub proof fn law_blocks_stand_in_their_section(st: TomlScan, line: Seq<char>)
    requires
        st.section != Some("blocks"@),
    ensures
        scan_line(st, line).blocks == st.blocks,
{
}

/// A line says nothing where it is made of spaces, or where the first character that is no space
/// begins a comment.
pub proof fn law_blank_lines_and_comments(line: Seq<char>)
    ensures
        (forall|i: int| 0 <= i < line.len() ==> is_space(#[trigger] line[i])) ==> silent_line(line),
        forall|i: int|
            0 <= i < line.len() && !is_space(#[trigger] line[i]) && (forall|j: int|
                0 <= j < i ==> is_space(#[trigger] line[j])) ==> (silent_line(line) <==> line[i]
                == '#'),
{
    law_trim_takes_spaces_off(line);
    let (a, b) = choose|a: int, b: int|
        {
            &&& 0 <= a <= b <= line.len()
            &&& trim(line) == #[trigger] line.subrange(a, b)
            &&& forall|i: int| 0 <= i < a || b <= i < line.len() ==> is_space(#[trigger] line[i])
        };
    assert forall|i: int|
        0 <= i < line.len() && !is_space(#[trigger] line[i]) && (forall|j: int|
            0 <= j < i ==> is_space(#[trigger] line[j])) implies (silent_line(line) <==> line[i]
        == '#') by {
        assert(a <= i < b);
        assert(trim(line)[0] == line[a]);
        if a < i {
            assert(is_space(line[a]));
        }
        assert(a == i);
    }
}

/// A file is read line by line from its beginning, where nothing is known yet.
pub proof fn law_read_line_by_line(ls: Seq<Seq<char>>, line: Seq<char>, content: Seq<char>)
    ensures
        toml_scan(content) == scan_lines(lines(content)),
        scan_lines(ls.push(line)) == scan_line(scan_lines(ls), line),
        scan_lines(Seq::empty()).section is None,
        scan_lines(Seq::empty()).open is None,
        scan_lines(Seq::empty()).assistant_name.len() == 0,
        scan_lines(Seq::empty()).user_name.len() == 0,
        scan_lines(Seq::empty()).blocks.len() == 0,
        !scan_lines(Seq::empty()).lone_quote,
{
    assert(ls.push(line).drop_last() =~= ls);
}

/// A line in square brackets opens the section that it names, and does nothing else.
pub proof fn law_header_opens_section(st: TomlScan, line: Seq<char>)
    requires
        st.open is None,
        trim(line).len() > 0,
        trim(line)[0] == '[',
        trim(line).last() == ']',
    ensures
        scan_line(st, line).section == Some(trim(line).subrange(1, trim(line).len() - 1)),
        scan_line(st, line).open is None,
        scan_line(st, line).assistant_name == st.assistant_name,
        scan_line(st, line).user_name == st.user_name,
        scan_line(st, line).blocks == st.blocks,
        scan_line(st, line).lone_quote == st.lone_quote,
{
}

/// The first equals sign of a line parts a key from its value, both without the spaces round
/// them, and the value without the quotation marks round it. In the section `[identity]` the two
/// names are set, in the section `[blocks]` a block is added behind the others; any other key, and
/// any other section, says nothing.
pub proof fn law_key_and_value(st: TomlScan, line: Seq<char>, e: int)
    requires
        st.open is None,
        0 <= e < trim(line).len(),
        trim(line)[e] == '=',
        forall|j: int| 0 <= j < e ==> #[trigger] trim(line)[j] != '=',
        trim(line)[0] != '#',
        trim(line)[0] != '[' || trim(line).last() != ']',
        trim(trim(line).skip(e + 1)) != "\"\"\""@,
        trim(trim(line).skip(e + 1)) != seq!['"'],
    ensures
        ({
            let key = trim(trim(line).take(e));
            let raw = trim(trim(line).skip(e + 1));
            let value = if raw.len() > 1 && raw[0] == '"' && raw.last() == '"' {
                raw.subrange(1, raw.len() - 1)
            } else {
                raw
            };
            let next = scan_line(st, line);
            &&& next.section == st.section
            &&& next.open is None
            &&& next.lone_quote == st.lone_quote
            &&& next.assistant_name == (if st.section == Some("identity"@) && key
                == "assistant_name"@ {
                value
            } else {
                st.assistant_name
            })
            &&& st.section == Some("identity"@) && key == "user_name"@ ==> next.user_name == value
            &&& st.section != Some("identity"@) || key != "user_name"@ ==> next.user_name
                == st.user_name
            &&& st.section == Some("blocks"@) ==> next.blocks == st.blocks.push((key, value))
            &&& st.section != Some("blocks"@) ==> next.blocks == st.blocks
        }),
{
    lemma_first_place(trim(line), '=', e);
    reveal_strlit("identity");
    reveal_strlit("blocks");
    reveal_strlit("assistant_name");
    reveal_strlit("user_name");
    assert("identity"@.len() != "blocks"@.len());
    assert("assistant_name"@.len() != "user_name"@.len());
}

proof fn lemma_first_place(s: Seq<char>, c: char, e: int)
    requires
        0 <= e < s.len(),
        s[e] == c,
        forall|j: int| 0 <= j < e ==> #[trigger] s[j] != c,
    ensures
        first_at(s, c) == e,
{
    law_first_place(s, c);
    if first_at(s, c) < e {
        assert(s[first_at(s, c)] != c);
    }
    if first_at(s, c) > e {
        assert(s[e] != c);
    }
}

/// A line that is neither a header nor a key with a value says nothing.
pub proof fn law_other_lines_say_nothing(st: TomlScan, line: Seq<char>)
    requires
        st.open is None,
        !trim(line).contains('='),
        trim(line).len() > 0 ==> trim(line)[0] != '[' || trim(line).last() != ']',
    ensures
        scan_line(st, line) == st,
{
    let t = trim(line);
    law_first_place(t, '=');
    if first_at(t, '=') < t.len() {
        assert(t[first_at(t, '=')] == '=');
    }
}

/// Three quotation marks as a value open a text of several lines, one quotation mark as a value
/// spoils the file; neither says anything else.
pub proof fn law_quotation_marks_as_value(st: TomlScan, line: Seq<char>, e: int)
    requires
        st.open is None,
        0 <= e < trim(line).len(),
        trim(line)[e] == '=',
        forall|j: int| 0 <= j < e ==> #[trigger] trim(line)[j] != '=',
        trim(line)[0] != '#',
        trim(line)[0] != '[' || trim(line).last() != ']',
    ensures
        trim(trim(line).skip(e + 1)) == "\"\"\""@ ==> scan_line(st, line) == (TomlScan {
            open: Some((trim(trim(line).take(e)), Seq::empty())),
            ..st
        }),
        trim(trim(line).skip(e + 1)) == seq!['"'] ==> scan_line(st, line) == (TomlScan {
            lone_quote: true,
            ..st
        }),
{
    lemma_first_place(trim(line), '=', e);
    reveal_strlit("\"\"\"");
    assert("\"\"\""@.len() == 3);
}

/// The lines of a text of several lines are kept as they stand, with line feeds between them,
/// until three quotation marks close it. In the section `[blocks]` it is then a block, without the
/// spaces at its end.
pub proof fn law_long_text_is_kept(st: TomlScan, line: Seq<char>, key: Seq<char>, value: Seq<char>)
    requires
        st.open == Some((key, value)),
        !silent_line(line),
    ensures
        trim(line) != "\"\"\""@ && value.len() == 0 ==> scan_line(st, line) == (TomlScan {
            open: Some((key, line)),
            ..st
        }),
        trim(line) != "\"\"\""@ && value.len() > 0 ==> scan_line(st, line) == (TomlScan {
            open: Some((key, value + seq!['\n'] + line)),
            ..st
        }),
        trim(line) == "\"\"\""@ && st.section == Some("blocks"@) ==> scan_line(st, line) == (
        TomlScan { open: None, blocks: st.blocks.push((key, trim_end(value))), ..st }),
        trim(line) == "\"\"\""@ && st.section != Some("blocks"@) ==> scan_line(st, line) == (
        TomlScan { open: None, ..st }),
{
    assert(value.push('\n') + line =~= value + seq!['\n'] + line);
}

/// A file that is spoilt by a quotation mark stays so.
pub proof fn law_spoilt_file_stays_spoilt(st: TomlScan, line: Seq<char>)
    requires
        st.lone_quote,
    ensures
        scan_line(st, line).lone_quote,
{
}

/// A file is refused where a value is a single quotation mark, where a text of several lines is
/// not closed, and where the assistant has no name; the first of these is told.
pub proof fn law_refused_files(content: Seq<char>)
    ensures
        toml_scan(content).lone_quote ==> toml_error(content) == Some(PersonaTomlError::LoneQuote),
        !toml_scan(content).lone_quote && toml_scan(content).open is Some ==> toml_error(content)
            == Some(PersonaTomlError::UnclosedMultiline),
        !toml_scan(content).lone_quote && toml_scan(content).open is None && toml_scan(
            content,
        ).assistant_name.len() == 0 ==> toml_error(content) == Some(
            PersonaTomlError::MissingAssistantName,
        ),
        !toml_scan(content).lone_quote && toml_scan(content).open is None && toml_scan(
            content,
        ).assistant_name.len() > 0 ==> toml_error(content) is None,
        PersonaTomlError::UnclosedMultiline.text()
            == "persona.toml 中存在未闭合的多行字符串 (\"\"\")"@,
        PersonaTomlError::MissingAssistantName.text()
            == "persona.toml 缺少 [identity] assistant_name"@,
        PersonaTomlError::LoneQuote.text() == "persona.toml 中存在未闭合的引号 (\")"@,
{
}

/// What a list of blocks says is what each of them says, in order.
pub proof fn law_blocks_are_seen(blocks: Seq<(String, String)>)
    ensures
        block_texts(blocks).len() == blocks.len(),
        forall|i: int|
            0 <= i < blocks.len() ==> #[trigger] block_texts(blocks)[i] == (
                blocks[i].0@,
                blocks[i].1@,
            ),
{
}

} // verus!
