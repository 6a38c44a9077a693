//! Reading quizzes in the textual format, and the bookkeeping of stored results.
use vstd::prelude::*;

use crate::common::{concat, contains_string, Location, QuizError, QuizErrorView};
use crate::format::{
    assoc_get, assoc_insert, bad_line, classify, context_of, digits_value, entries_from,
    entry_question, fields_error, first_unexpected, flashcard_fields, group_body, is_digit,
    empty_build, keys_distinct, lemma_next_entry_shrinks, lemma_quiz_of, lines_of, list_fields, next_entry, other_choices, parse_error, question_body,
    quiz_of, settings, settings_from, short_fields, timeout_of, tokens_from, u64_value,
    unsigned_digits, with_global_timeout, BuildView, ChoiceGroupEntryView, FileEntryView,
    FileLineView, LineKind, QuestionEntryView, SettingsView, StoredResultsView, Tok,
};
use crate::quiz::{
    QuizView, clone_results, common_of, Answer, FlashcardQuestion, ListQuestion, MultipleChoiceQuestion,
    OrderedListQuestion, Question, QuestionCommon, QuestionCommonView, QuestionResult,
    QuestionResultView, QuestionView, Quiz, ShortAnswerQuestion,
};
use crate::text::{
    chars_eq, chars_of, find, find_char, split_trim, split_trimmed, starts_with, str_eq,
    string_of, sub_chars, trim, trim_chars,
};

verus! {

/// The characters of each of `v`.
pub open spec fn char_views(v: Seq<Vec<char>>) -> Seq<Seq<char>> {
    v.map_values(|l: Vec<char>| l@)
}

/// Cut `text` into lines, each with its newline, as `BufRead::read_line` does.
pub fn split_lines(text: &Vec<char>) -> (r: Vec<Vec<char>>)
    ensures
        char_views(r@) == lines_of(text@),
{
    let mut out: Vec<Vec<char>> = Vec::new();
    let mut start: usize = 0;
    let n = text.len();
    assert(text@.subrange(0, n as int) =~= text@);
    assert(char_views(out@) =~= Seq::<Seq<char>>::empty());
    while start < n
        invariant
            0 <= start <= n == text.len(),
            char_views(out@) + lines_of(text@.subrange(start as int, n as int)) == lines_of(text@),
        decreases n - start,
    {
        let ghost rest = text@.subrange(start as int, n as int);
        let mut i = start;
        while i < n && text[i] != '\n'
            invariant
                start <= i <= n == text.len(),
                forall|k: int| start <= k < i ==> text@[k] != '\n',
            decreases n - i,
        {
            i += 1;
        }
        proof {
            let pat = seq!['\n'];
            assert forall|k: int| 0 <= k < i - start implies !matches_at_newline(rest, k) by {
                assert(rest[k] == text@[start + k]);
                if matches_at_newline(rest, k) {
                    assert(rest.subrange(k, k + 1)[0] == rest[k]);
                }
            }
            lemma_find_newline(rest, (i - start) as int);
        }
        let ghost before = char_views(out@);
        if i < n {
            let line = sub_chars(text, start, i + 1);
            out.push(line);
            proof {
                assert(char_views(out@) =~= before.push(line@));
                assert(rest.subrange(0, i - start + 1) =~= line@);
                assert(rest.subrange(i - start + 1, rest.len() as int) =~= text@.subrange(
                    i + 1,
                    n as int,
                ));
                assert(lines_of(rest) == seq![line@] + lines_of(text@.subrange(i + 1, n as int)));
                assert(char_views(out@) + lines_of(text@.subrange(i + 1, n as int)) =~= before
                    + lines_of(rest));
            }
            start = i + 1;
        } else {
            let line = sub_chars(text, start, n);
            out.push(line);
            proof {
                assert(char_views(out@) =~= before.push(line@));
                assert(line@ =~= rest);
                assert(lines_of(rest) == seq![rest]);
                assert(text@.subrange(n as int, n as int) =~= Seq::<char>::empty());
                assert(char_views(out@) + lines_of(text@.subrange(n as int, n as int)) =~= before
                    + lines_of(rest));
            }
            start = n;
        }
    }
    proof {
        assert(text@.subrange(n as int, n as int) =~= Seq::<char>::empty());
        assert(char_views(out@) + Seq::<Seq<char>>::empty() =~= char_views(out@));
    }
    out
}

spec fn matches_at_newline(s: Seq<char>, k: int) -> bool {
    crate::text::matches_at(s, seq!['\n'], k)
}

proof fn lemma_find_newline(s: Seq<char>, i: int)
    requires
        0 <= i <= s.len(),
        forall|k: int| 0 <= k < i ==> !matches_at_newline(s, k),
        i < s.len() ==> s[i] == '\n',
    ensures
        i < s.len() ==> find(s, seq!['\n']) == Some(i),
        i == s.len() ==> find(s, seq!['\n']) is None,
{
    crate::text::lemma_find_from(s, seq!['\n'], 0);
    if i < s.len() {
        assert(s.subrange(i, i + 1) =~= seq!['\n']);
        assert(matches_at_newline(s, i));
        match find(s, seq!['\n']) {
            Some(j) => {
                if j < i {
                    assert(matches_at_newline(s, j));
                } else if j > i {
                    assert(!matches_at_newline(s, i));
                }
            },
            None => {
                assert(!matches_at_newline(s, i));
            },
        }
    } else {
        if find(s, seq!['\n']) is Some {
            let j = find(s, seq!['\n'])->0;
            assert(matches_at_newline(s, j));
        }
    }
}

/// A meaningful line of a quiz file.
pub enum FileLine {
    First(String, String),
    ChoiceGroup(String),
    Following(String),
    Pair(String, String),
    Blank,
}

impl View for FileLine {
    type V = FileLineView;

    open spec fn view(&self) -> FileLineView {
        match self {
            FileLine::First(a, b) => FileLineView::First(a@, b@),
            FileLine::ChoiceGroup(a) => FileLineView::ChoiceGroup(a@),
            FileLine::Following(a) => FileLineView::Following(a@),
            FileLine::Pair(a, b) => FileLineView::Pair(a@, b@),
            FileLine::Blank => FileLineView::Blank,
        }
    }
}

/// What a trimmed line of a quiz file is.
pub enum Classified {
    Comment,
    Line(FileLine),
    Bad(String),
}

impl View for Classified {
    type V = LineKind;

    open spec fn view(&self) -> LineKind {
        match self {
            Classified::Comment => LineKind::Comment,
            Classified::Line(l) => LineKind::Line(l@),
            Classified::Bad(m) => LineKind::Bad(m@),
        }
    }
}

/// The characters of a string literal.
fn lit(s: &str) -> (v: Vec<char>)
    ensures
        v@ == s@,
{
    chars_of(s)
}

/// The trimmed characters `v[from..to]` as a string.
pub fn trimmed_piece(v: &Vec<char>, from: usize, to: usize) -> (r: String)
    requires
        from <= to <= v.len(),
    ensures
        r@ == trim(v@.subrange(from as int, to as int)),
{
    let piece = sub_chars(v, from, to);
    let t = trim_chars(&piece);
    string_of(&t, 0, t.len())
}

/// Classify the trimmed line `t`.
pub fn classify_line(t: &Vec<char>) -> (r: Classified)
    ensures
        r@ == classify(t@),
{
    if starts_with(t, &lit("#")) {
        return Classified::Comment;
    }
    if t.len() == 0 {
        return Classified::Line(FileLine::Blank);
    }
    if starts_with(t, &lit("- ")) {
        match find_char(t, ':') {
            Some(c) => {
                proof {
                    crate::text::lemma_find_from(t@, seq![':'], 0);
                    assert(t@.subrange(c as int, c + 1)[0] == t@[c as int]);
                    reveal_strlit("- ");
                    assert("- "@.is_prefix_of(t@));
                    assert(t@.subrange(0, 2)[0] == '-');
                    assert(t@.subrange(0, 2)[1] == ' ');
                    assert(t@[0] == '-' && t@[1] == ' ');
                    assert(c >= 2);
                }
                let key = trimmed_piece(t, 2, c);
                let value = trimmed_piece(t, c + 1, t.len());
                return Classified::Line(FileLine::Pair(key, value));
            },
            None => {
                return Classified::Bad(String::from_str("expected colon"));
            },
        }
    }
    if starts_with(t, &lit("[")) {
        match find_char(t, ']') {
            Some(b) => {
                proof {
                    crate::text::lemma_find_from(t@, seq![']'], 0);
                    reveal_strlit("[");
                    assert(t@.subrange(0, 1)[0] == t@[0]);
                    assert(t@.subrange(b as int, b + 1)[0] == t@[b as int]);
                    assert(b >= 1);
                }
                let id = trimmed_piece(t, 1, b);
                let rest = trimmed_piece(t, b + 1, t.len());
                return Classified::Line(FileLine::First(id, rest));
            },
            None => {},
        }
    }
    if starts_with(t, &lit("choice-group")) {
        proof {
            reveal_strlit("choice-group");
        }
        let rest = trimmed_piece(t, 12, t.len());
        if rest.as_str().unicode_len() > 0 {
            return Classified::Line(FileLine::ChoiceGroup(rest));
        } else {
            return Classified::Bad(String::from_str("expected identifier"));
        }
    }
    proof {
        reveal_strlit("#");
        reveal_strlit("- ");
        reveal_strlit("[");
        reveal_strlit("choice-group");
    }
    let whole = string_of(t, 0, t.len());
    assert(whole@ =~= t@);
    Classified::Line(FileLine::Following(whole))
}

/// Reads the meaningful lines of a quiz file one at a time, and lets the caller
/// put the last one back.
pub struct QuizReader {
    lines: Vec<Vec<char>>,
    /// How many physical lines have been read.
    pos: usize,
    /// This field is for when a function reads one line too many and needs to "push" it
    /// back so that the next call to `read_line` returns it instead of the next line
    /// in the underlying file.
    pushed: Option<FileLine>,
    /// The number of the last line read.
    line: usize,
}

impl QuizReader {
    /// The reader is consistent.
    pub closed spec fn wf(&self) -> bool {
        &&& self.pos <= self.lines.len()
        &&& self.line == self.pos
    }

    /// The lines that reads will hand on from now on.
    pub closed spec fn remaining(&self) -> Seq<Tok> {
        let later = tokens_from(char_views(self.lines@), self.pos as nat);
        match self.pushed {
            Some(l) => seq![Tok::Line { line: l@, lineno: self.line as nat }] + later,
            None => later,
        }
    }

    /// The number of the last line read.
    pub closed spec fn lineno(&self) -> nat {
        self.line as nat
    }

    /// A line has been put back.
    pub closed spec fn holds_pushed(&self) -> bool {
        self.pushed is Some
    }

    /// A reader of the lines of `text`.
    pub fn new(text: &str) -> (r: QuizReader)
        ensures
            r.wf(),
            r.remaining() == tokens_from(lines_of(text@), 0),
            r.lineno() == 0,
            !r.holds_pushed(),
    {
        let chars = chars_of(text);
        QuizReader { lines: split_lines(&chars), pos: 0, pushed: None, line: 0 }
    }

    /// The number of the last line read.
    pub fn line(&self) -> (r: usize)
        ensures
            r == self.lineno(),
    {
        self.line
    }

    /// Push a line so that the next time `read_line` is called it returns `line`
    /// instead of the next line from the file.
    ///
    /// Only one line can be buffered at a time; if you call `push` when a line is
    /// already buffered, the old line will be replaced.
    pub fn push(&mut self, line: FileLine)
        requires
            old(self).wf(),
        ensures
            final(self).wf(),
            final(self).lineno() == old(self).lineno(),
            final(self).holds_pushed(),
            !old(self).holds_pushed() ==> final(self).remaining() == seq![
                Tok::Line { line: line@, lineno: old(self).lineno() },
            ] + old(self).remaining(),
            old(self).holds_pushed() ==> final(self).remaining() == seq![
                Tok::Line { line: line@, lineno: old(self).lineno() },
            ] + old(self).remaining().drop_first(),
    {
        self.pushed = Some(line);
    }

    /// Read a line from the underlying file. Possible return values:
    ///   - `Ok(Some(_))`: a line was successfully read
    ///   - `Ok(None)`: end of file
    ///   - `Err(_)`: the line could not be read (a parse error)
    pub fn read_line(&mut self) -> (r: Result<Option<FileLine>, QuizError>)
        requires
            old(self).wf(),
        ensures
            final(self).wf(),
            !final(self).holds_pushed(),
            old(self).remaining().len() == 0 ==> (r matches Ok(None)),
            old(self).remaining().len() == 0 ==> final(self).remaining().len() == 0,
            old(self).remaining().len() > 0 ==> match old(self).remaining()[0] {
                Tok::Bad { lineno, .. } => {
                    &&& (r matches Err(e) && e@ == bad_line(old(self).remaining()[0]))
                    &&& final(self).lineno() == lineno
                },
                Tok::Line { line, lineno } => {
                    &&& (r matches Ok(Some(l)) && l@ == line)
                    &&& final(self).remaining() == old(self).remaining().drop_first()
                    &&& final(self).lineno() == lineno
                },
            },
    {
        if self.pushed.is_some() {
            let l = self.pushed.take();
            return Ok(l);
        }
        loop
            invariant
                self.wf(),
                self.pushed is None,
                self.remaining() == old(self).remaining(),
            decreases self.lines.len() - self.pos,
        {
            if self.pos >= self.lines.len() {
                return Ok(None);
            }
            let t = trim_chars(&self.lines[self.pos]);
            assert(char_views(self.lines@)[self.pos as int] == self.lines@[self.pos as int]@);
            self.pos += 1;
            self.line += 1;
            match classify_line(&t) {
                Classified::Comment => {},
                Classified::Bad(m) => {
                    return Err(QuizError::Parse { line: self.line, whole_entry: false, message: m });
                },
                Classified::Line(l) => {
                    return Ok(Some(l));
                },
            }
        }
    }
}

/// The settings at the top of a quiz file.
pub struct GlobalSettings {
    pub instructions: Option<String>,
    pub timeout: Option<u64>,
}

impl View for GlobalSettings {
    type V = SettingsView;

    open spec fn view(&self) -> SettingsView {
        SettingsView { instructions: self.instructions.deep_view(), timeout: self.timeout }
    }
}

pub proof fn lemma_digits_monotone(d: Seq<char>, k: int)
    requires
        0 <= k <= d.len(),
        forall|i: int| 0 <= i < d.len() ==> is_digit(#[trigger] d[i]),
    ensures
        digits_value(d.subrange(0, k)) <= digits_value(d),
    decreases d.len() - k,
{
    if k < d.len() {
        lemma_digits_monotone(d, k + 1);
        let p = d.subrange(0, k + 1);
        assert(p.drop_last() =~= d.subrange(0, k));
        assert(is_digit(p.last()));
    } else {
        assert(d.subrange(0, k) =~= d);
    }
}

/// Read `s` as an unsigned number, as `u64::from_str` does.
pub fn parse_u64(s: &str, line: usize) -> (r: Result<u64, QuizError>)
    ensures
        u64_value(s@) matches Some(v) ==> r == Ok::<u64, QuizError>(v),
        u64_value(s@) is None ==> (r matches Err(e) && e@ == parse_error(
            line as nat,
            false,
            "could not parse integer"@,
        )),
{
    let v = chars_of(s);
    let start: usize = if v.len() > 0 && v[0] == '+' {
        1
    } else {
        0
    };
    let ghost d = unsigned_digits(s@);
    assert(d =~= v@.subrange(start as int, v.len() as int));
    let fail = QuizError::Parse {
        line,
        whole_entry: false,
        message: String::from_str("could not parse integer"),
    };
    if start == v.len() {
        return Err(fail);
    }
    let mut value: u64 = 0;
    let mut i = start;
    while i < v.len()
        invariant
            start <= i <= v.len(),
            d == v@.subrange(start as int, v.len() as int),
            v@ == s@,
            d == unsigned_digits(s@),
            fail@ == parse_error(line as nat, false, "could not parse integer"@),
            forall|k: int| start <= k < i ==> is_digit(#[trigger] v@[k]),
            value == digits_value(v@.subrange(start as int, i as int)),
        decreases v.len() - i,
    {
        let c = v[i];
        let n = c as u32;
        if !(48 <= n && n <= 57) {
            proof {
                assert(d[i - start] == c);
                assert(!is_digit(c));
                assert(!is_digit(d[i - start]));
                assert(!(forall|k: int| 0 <= k < d.len() ==> is_digit(#[trigger] d[k])));
                assert(u64_value(s@) is None);
            }
            return Err(fail);
        }
        let digit = (n - 48) as u64;
        proof {
            let p = v@.subrange(start as int, i + 1);
            assert(p.drop_last() =~= v@.subrange(start as int, i as int));
            assert(p.last() == c);
        }
        if value > (u64::MAX - digit) / 10 {
            proof {
                assert(digits_value(v@.subrange(start as int, i + 1)) > u64::MAX);
                if forall|k: int| 0 <= k < d.len() ==> is_digit(#[trigger] d[k]) {
                    lemma_digits_monotone(d, i + 1 - start);
                    assert(d.subrange(0, i + 1 - start) =~= v@.subrange(start as int, i + 1));
                    assert(digits_value(d) > u64::MAX);
                }
                assert(u64_value(s@) is None);
            }
            return Err(fail);
        }
        value = value * 10 + digit;
        i += 1;
    }
    proof {
        assert forall|k: int| 0 <= k < d.len() implies is_digit(#[trigger] d[k]) by {
            assert(d[k] == v@[k + start]);
        }
        assert(v@.subrange(start as int, v.len() as int) == d);
    }
    Ok(value)
}

/// The literal `s` as a `String`.
pub fn owned(s: &str) -> (r: String)
    ensures
        r@ == s@,
{
    String::from_str(s)
}

/// Read the initial settings from the file.
pub fn read_settings(reader: &mut QuizReader) -> (r: Result<GlobalSettings, QuizError>)
    requires
        old(reader).wf(),
    ensures
        final(reader).wf(),
        settings(old(reader).remaining()) matches Ok((s, rest)) ==> (r matches Ok(g) && g@ == s
            && final(reader).remaining() == rest),
        settings(old(reader).remaining()) matches Err(e) ==> (r matches Err(x) && x@ == e),
{
    let mut settings_acc = GlobalSettings { instructions: None, timeout: None };
    let mut first_line = true;
    loop
        invariant
            reader.wf(),
            settings(old(reader).remaining()) == settings_from(
                reader.remaining(),
                first_line,
                settings_acc@,
            ),
        decreases reader.remaining().len(),
    {
        let ghost before = reader.remaining();
        let next = match reader.read_line() {
            Ok(x) => x,
            Err(e) => {
                return Err(e);
            },
        };
        match next {
            Some(FileLine::Pair(key, val)) => {
                if str_eq(key.as_str(), "instructions") {
                    settings_acc.instructions = Some(val);
                } else {
                    let a = concat("unexpected field '", key.as_str());
                    let message = concat(a.as_str(), "'");
                    return Err(QuizError::Parse { line: reader.line(), whole_entry: false, message });
                }
            },
            Some(FileLine::Blank) => {
                return Ok(settings_acc);
            },
            None => {
                assert(reader.remaining() =~= before);
                return Ok(settings_acc);
            },
            Some(line) => {
                // An unexpected line type is okay for the first line: it just means
                // that the quiz doesn't have any settings. But it's not okay after,
                // because the settings must be separated from the rest of the quiz by
                // a blank line.
                if first_line {
                    reader.push(line);
                    assert(reader.remaining() =~= before);
                    return Ok(settings_acc);
                } else {
                    return Err(
                        QuizError::Parse {
                            line: reader.line(),
                            whole_entry: false,
                            message: owned("no blank line after quiz settings"),
                        },
                    );
                }
            },
        }
        first_line = false;
    }
}

/// A question as it stands in the file.
pub struct QuestionEntry {
    pub id: String,
    pub text: String,
    pub following: Vec<String>,
    /// Attribute keys and values, each key once.
    pub attributes: Vec<(String, String)>,
    pub location: Location,
}

impl View for QuestionEntry {
    type V = QuestionEntryView;

    open spec fn view(&self) -> QuestionEntryView {
        QuestionEntryView {
            id: self.id@,
            text: self.text@,
            following: self.following.deep_view(),
            attributes: self.attributes.deep_view(),
            line: self.location.line as nat,
        }
    }
}

/// A choice group as it stands in the file.
pub struct ChoiceGroupEntry {
    pub id: String,
    /// Choice codes and their answers, each code once.
    pub choices: Vec<(String, Vec<String>)>,
    pub location: Location,
}

impl View for ChoiceGroupEntry {
    type V = ChoiceGroupEntryView;

    open spec fn view(&self) -> ChoiceGroupEntryView {
        ChoiceGroupEntryView {
            id: self.id@,
            choices: self.choices.deep_view(),
            line: self.location.line as nat,
        }
    }
}

/// An entry of a quiz file.
pub enum FileEntry {
    QuestionEntry(QuestionEntry),
    ChoiceGroupEntry(ChoiceGroupEntry),
}

impl View for FileEntry {
    type V = FileEntryView;

    open spec fn view(&self) -> FileEntryView {
        match self {
            FileEntry::QuestionEntry(e) => FileEntryView::Question(e@),
            FileEntry::ChoiceGroupEntry(g) => FileEntryView::ChoiceGroup(g@),
        }
    }
}

impl FileEntry {
    /// The file that the entry belongs to.
    pub open spec fn path(&self) -> Seq<char> {
        match self {
            FileEntry::QuestionEntry(e) => e.location.path@,
            FileEntry::ChoiceGroupEntry(g) => g.location.path@,
        }
    }
}

/// The position of the first pair with key `k`.
pub fn assoc_find<V: DeepView>(m: &Vec<(String, V)>, k: &str) -> (r: Option<usize>)
    ensures
        r matches Some(i) ==> i < m.len() && m.deep_view()[i as int].0 == k@ && assoc_get(
            m.deep_view(),
            k@,
        ) == Some(m.deep_view()[i as int].1),
        r is None ==> assoc_get(m.deep_view(), k@) is None,
        r is None ==> forall|j: int| 0 <= j < m.len() ==> (#[trigger] m.deep_view()[j]).0 != k@,
{
    let mut i: usize = 0;
    assert(m.deep_view().subrange(0, m.len() as int) =~= m.deep_view());
    while i < m.len()
        invariant
            0 <= i <= m.len(),
            forall|j: int| 0 <= j < i ==> (#[trigger] m.deep_view()[j]).0 != k@,
            assoc_get(m.deep_view(), k@) == assoc_get(m.deep_view().subrange(i as int, m.len() as int), k@),
        decreases m.len() - i,
    {
        let ghost rest = m.deep_view().subrange(i as int, m.len() as int);
        if str_eq(m[i].0.as_str(), k) {
            assert(rest[0] == m.deep_view()[i as int]);
            return Some(i);
        }
        assert(rest.drop_first() =~= m.deep_view().subrange(i + 1, m.len() as int));
        i += 1;
    }
    proof {
        let rest = m.deep_view().subrange(i as int, m.len() as int);
        assert(rest.len() == 0);
    }
    None
}

/// Insert `(k, v)`, replacing the value of `k` if it is there.
pub fn assoc_put<V: DeepView>(m: &mut Vec<(String, V)>, k: String, v: V)
    requires
        keys_distinct(old(m).deep_view()),
    ensures
        keys_distinct(final(m).deep_view()),
        final(m).deep_view() == assoc_insert(old(m).deep_view(), k@, v.deep_view()),
{
    let ghost kv = k@;
    let ghost vv = v.deep_view();
    match assoc_find(m, k.as_str()) {
        Some(i) => {
            let ghost before = m.deep_view();
            let ghost before_raw = m@;
            m.set(i, (k, v));
            proof {
                assert(m@ == before_raw.update(i as int, m@[i as int]));
                assert(m.deep_view() =~= before.update(i as int, (kv, vv)));
                let c = choose|j: int| 0 <= j < before.len() && (#[trigger] before[j]).0 == kv;
                assert(before[c].0 == kv);
                if c != i {
                    if c < i {
                        assert(before[c].0 != before[i as int].0);
                    } else {
                        assert(before[i as int].0 != before[c].0);
                    }
                }
            }
        },
        None => {
            let ghost before = m.deep_view();
            m.push((k, v));
            proof {
                assert(m.deep_view() =~= before.push((kv, vv)));
                assert(!exists|j: int| 0 <= j < before.len() && (#[trigger] before[j]).0 == kv);
            }
        },
    }
}

/// A copy of the location with the same path and the given line.
pub fn location_at(path: &str, line: usize) -> (r: Location)
    ensures
        r.line == line,
        r.path@ == path@,
{
    Location { line, path: String::from_str(path) }
}

/// Read an entry from the file.
///
/// `Ok(Some(entry))` is returned on a successful read. `Ok(None)` is returned when the
/// end of file is reached. `Err(e)` is returned if a parse error occurs.
pub fn read_entry(path: &str, reader: &mut QuizReader) -> (r: Result<Option<FileEntry>, QuizError>)
    requires
        old(reader).wf(),
    ensures
        final(reader).wf(),
        next_entry(old(reader).remaining()) matches Err(x) ==> (r matches Err(e) && e@ == x),
        next_entry(old(reader).remaining()) is Ok ==> r is Ok,
        next_entry(old(reader).remaining()) matches Ok(None) ==> (r matches Ok(None)),
        next_entry(old(reader).remaining()) matches Ok(Some((fe, rest))) ==> (r matches Ok(Some(e))
            && e@ == fe && e.path() == path@ && final(reader).remaining() == rest),
{
    // Loop over blank lines before the actual question.
    loop
        invariant
            reader.wf(),
            next_entry(old(reader).remaining()) == next_entry(reader.remaining()),
        decreases reader.remaining().len(),
    {
        let ghost before = reader.remaining();
        let next = match reader.read_line() {
            Ok(x) => x,
            Err(e) => {
                return Err(e);
            },
        };
        match next {
            Some(FileLine::First(id, text)) => {
                let mut entry = QuestionEntry {
                    id,
                    text,
                    following: Vec::new(),
                    attributes: Vec::new(),
                    location: location_at(path, reader.line()),
                };
                assert(entry.following.deep_view() =~= Seq::<Seq<char>>::empty());
                assert(entry.attributes.deep_view() =~= Seq::<(Seq<char>, Seq<char>)>::empty());
                assert(entry@ == QuestionEntryView {
                    id: entry.id@,
                    text: entry.text@,
                    following: Seq::empty(),
                    attributes: Seq::empty(),
                    line: reader.lineno(),
                });
                loop
                    invariant
                        reader.wf(),
                        !reader.holds_pushed(),
                        entry.location.path@ == path@,
                        keys_distinct(entry.attributes.deep_view()),
                        next_entry(old(reader).remaining()) == (match question_body(
                            reader.remaining(),
                            entry@,
                        ) {
                            Ok((e, r)) => Ok(Some((FileEntryView::Question(e), r))),
                            Err(x) => Err(x),
                        }),
                    decreases reader.remaining().len(),
                {
                    let ghost inner = reader.remaining();
                    let line = match reader.read_line() {
                        Ok(x) => x,
                        Err(e) => {
                            return Err(e);
                        },
                    };
                    match line {
                        Some(FileLine::Blank) => {
                            return Ok(Some(FileEntry::QuestionEntry(entry)));
                        },
                        None => {
                            assert(reader.remaining() =~= inner);
                            return Ok(Some(FileEntry::QuestionEntry(entry)));
                        },
                        Some(FileLine::Following(l)) => {
                            let ghost old_following = entry.following.deep_view();
                            entry.following.push(l);
                            assert(entry.following.deep_view() =~= old_following.push(l@));
                        },
                        Some(FileLine::Pair(key, value)) => {
                            assoc_put(&mut entry.attributes, key, value);
                        },
                        Some(FileLine::First(a, b)) => {
                            // The first line of the next question ends this one; it
                            // is put back for the next read.
                            let ghost lv = FileLineView::First(a@, b@);
                            reader.push(FileLine::First(a, b));
                            assert(reader.remaining() =~= inner);
                            return Ok(Some(FileEntry::QuestionEntry(entry)));
                        },
                        Some(FileLine::ChoiceGroup(..)) => {
                            return Err(
                                QuizError::Parse {
                                    line: reader.line(),
                                    whole_entry: false,
                                    message: owned("unexpected line in question"),
                                },
                            );
                        },
                    }
                }
            },
            Some(FileLine::ChoiceGroup(id)) => {
                let mut entry = ChoiceGroupEntry {
                    id,
                    choices: Vec::new(),
                    location: location_at(path, reader.line()),
                };
                assert(entry.choices.deep_view() =~= Seq::<(Seq<char>, Seq<Seq<char>>)>::empty());
                assert(entry@ == ChoiceGroupEntryView {
                    id: entry.id@,
                    choices: Seq::empty(),
                    line: reader.lineno(),
                });
                loop
                    invariant
                        reader.wf(),
                        !reader.holds_pushed(),
                        entry.location.path@ == path@,
                        keys_distinct(entry.choices.deep_view()),
                        next_entry(old(reader).remaining()) == (match group_body(
                            reader.remaining(),
                            entry@,
                        ) {
                            Ok((g, r)) => Ok(Some((FileEntryView::ChoiceGroup(g), r))),
                            Err(x) => Err(x),
                        }),
                    decreases reader.remaining().len(),
                {
                    let ghost inner = reader.remaining();
                    let line = match reader.read_line() {
                        Ok(x) => x,
                        Err(e) => {
                            return Err(e);
                        },
                    };
                    match line {
                        Some(FileLine::Blank) => {
                            return Ok(Some(FileEntry::ChoiceGroupEntry(entry)));
                        },
                        None => {
                            assert(reader.remaining() =~= inner);
                            return Ok(Some(FileEntry::ChoiceGroupEntry(entry)));
                        },
                        Some(FileLine::Pair(key, value)) => {
                            let answers = split_trim(value.as_str(), "/");
                            assert(answers.deep_view() =~= answers@.map_values(|x: String| x@));
                            assoc_put(&mut entry.choices, key, answers);
                        },
                        Some(_) => {
                            return Err(
                                QuizError::Parse {
                                    line: reader.line(),
                                    whole_entry: false,
                                    message: owned("unexpected line in choice group"),
                                },
                            );
                        },
                    }
                }
            },
            Some(FileLine::Blank) => {},
            Some(_) => {
                return Err(
                    QuizError::Parse {
                        line: reader.line(),
                        whole_entry: false,
                        message: owned("expected first line of question"),
                    },
                );
            },
            None => {
                return Ok(None);
            },
        }
    }
}

/// The pieces of `s` between the occurrences of `splitter`, each trimmed.
pub fn split(s: &str, splitter: &str) -> (r: Vec<String>)
    ensures
        r.deep_view() == split_trimmed(s@, splitter@),
{
    let r = split_trim(s, splitter);
    assert(r.deep_view() =~= r@.map_values(|x: String| x@));
    r
}

/// The results stored for a quiz: per question ID, the results of the times it
/// was asked, in the order they were recorded.
pub struct StoredResults {
    pub entries: Vec<(String, Vec<QuestionResult>)>,
}

impl View for StoredResults {
    type V = StoredResultsView;

    open spec fn view(&self) -> StoredResultsView {
        self.entries.deep_view()
    }
}

impl StoredResults {
    /// No stored results.
    pub fn new() -> (r: StoredResults)
        ensures
            r@ == Seq::<(Seq<char>, Seq<QuestionResultView>)>::empty(),
    {
        let r = StoredResults { entries: Vec::new() };
        assert(r@ =~= Seq::<(Seq<char>, Seq<QuestionResultView>)>::empty());
        r
    }

    /// The number of questions with stored results.
    pub fn len(&self) -> (r: usize)
        ensures
            r == self@.len(),
    {
        self.entries.len()
    }

    /// The results stored for the question `id`.
    pub fn get(&self, id: &str) -> (r: Option<&Vec<QuestionResult>>)
        ensures
            r matches Some(v) ==> assoc_get(self@, id@) == Some(v.deep_view()),
            r is None ==> assoc_get(self@, id@) is None,
    {
        match assoc_find(&self.entries, id) {
            Some(i) => Some(&self.entries[i].1),
            None => None,
        }
    }
}

/// The error for attributes that the question does not take.
pub fn check_fields(attrib: &Vec<(String, String)>, allowed: &Vec<String>, lineno: usize) -> (r: Result<(), QuizError>)
    ensures
        fields_error(attrib.deep_view(), allowed.deep_view(), lineno as nat) matches Some(x) ==> (r matches Err(e) && e@ == x),
        fields_error(attrib.deep_view(), allowed.deep_view(), lineno as nat) is None ==> r is Ok,
{
    let mut i: usize = 0;
    assert(attrib.deep_view().subrange(0, attrib.len() as int) =~= attrib.deep_view());
    while i < attrib.len()
        invariant
            0 <= i <= attrib.len(),
            first_unexpected(attrib.deep_view(), allowed.deep_view()) == first_unexpected(
                attrib.deep_view().subrange(i as int, attrib.len() as int),
                allowed.deep_view(),
            ),
        decreases attrib.len() - i,
    {
        let ghost rest = attrib.deep_view().subrange(i as int, attrib.len() as int);
        assert(rest[0] == attrib.deep_view()[i as int]);
        if !contains_string(allowed, attrib[i].0.as_str()) {
            let a = concat("unexpected field '", attrib[i].0.as_str());
            let message = concat(a.as_str(), "'");
            return Err(QuizError::Parse { line: lineno, whole_entry: true, message });
        }
        assert(rest.drop_first() =~= attrib.deep_view().subrange(i + 1, attrib.len() as int));
        i += 1;
    }
    proof {
        assert(attrib.deep_view().subrange(i as int, attrib.len() as int).len() == 0);
    }
    Ok(())
}

/// The strings `a`, `b` and `c`.
fn three(a: &str, b: &str, c: &str) -> (r: Vec<String>)
    ensures
        r.deep_view() == seq![a@, b@, c@],
{
    let mut v: Vec<String> = Vec::new();
    v.push(owned(a));
    v.push(owned(b));
    v.push(owned(c));
    assert(v.deep_view() =~= seq![a@, b@, c@]);
    v
}

/// The string `a`.
fn one(a: &str) -> (r: Vec<String>)
    ensures
        r.deep_view() == seq![a@],
{
    let mut v: Vec<String> = Vec::new();
    v.push(owned(a));
    assert(v.deep_view() =~= seq![a@]);
    v
}

/// The strings `a` and `b`.
fn two(a: &str, b: &str) -> (r: Vec<String>)
    ensures
        r.deep_view() == seq![a@, b@],
{
    let mut v: Vec<String> = Vec::new();
    v.push(owned(a));
    v.push(owned(b));
    assert(v.deep_view() =~= seq![a@, b@]);
    v
}

/// Remove the context of a line: the text in brackets, if there is any.
pub fn get_context(line: &str, lineno: usize) -> (r: Result<(String, Option<String>), QuizError>)
    ensures
        context_of(line@, lineno as nat) matches Ok((l, c)) ==> (r matches Ok((l2, c2)) && l2@ == l
            && c2.deep_view() == c),
        context_of(line@, lineno as nat) matches Err(x) ==> (r matches Err(e) && e@ == x),
{
    let v = chars_of(line);
    match find_char(&v, '[') {
        Some(open) => {
            proof {
                crate::text::lemma_find_from(v@, seq!['['], 0);
            }
            let after = sub_chars(&v, open, v.len());
            match find_char(&after, ']') {
                Some(c) => {
                    proof {
                        crate::text::lemma_find_from(after@, seq![']'], 0);
                        assert(after@.subrange(c as int, c + 1)[0] == after@[c as int]);
                        assert(v@.subrange(open as int, open + 1)[0] == v@[open as int]);
                        assert(after@[0] == v@[open as int]);
                        assert(c >= 1);
                    }
                    let close = c + open;
                    let new_line = trimmed_piece(&v, 0, open);
                    let context = trimmed_piece(&v, open + 1, close);
                    Ok((new_line, Some(context)))
                },
                None => Err(
                    QuizError::Parse {
                        line: lineno,
                        whole_entry: false,
                        message: owned("expected ]"),
                    },
                ),
            }
        },
        None => Ok((owned(line), None)),
    }
}

/// The timeout attribute of a question, read as a number.
pub fn timeout_attr(attrs: &Vec<(String, String)>, line: usize) -> (r: Result<Option<u64>, QuizError>)
    ensures
        timeout_of(attrs.deep_view(), line as nat) matches Ok(t) ==> r == Ok::<Option<u64>, QuizError>(t),
        timeout_of(attrs.deep_view(), line as nat) matches Err(x) ==> (r matches Err(e) && e@ == x),
{
    match assoc_find(attrs, "timeout") {
        Some(i) => match parse_u64(attrs[i].1.as_str(), line) {
            Ok(t) => Ok(Some(t)),
            Err(_) => Err(
                QuizError::Parse {
                    line,
                    whole_entry: true,
                    message: owned("could not parse integer"),
                },
            ),
        },
        None => Ok(None),
    }
}

proof fn lemma_other_choices_push(g: Seq<(Seq<char>, Seq<Seq<char>>)>, code: Seq<char>, i: int)
    requires
        0 <= i < g.len(),
    ensures
        other_choices(g.subrange(0, i + 1), code) == other_choices(g.subrange(0, i), code) + (if g[i].0
            == code {
            Seq::<Seq<char>>::empty()
        } else {
            g[i].1
        }),
    decreases i,
{
    let a = g.subrange(0, i + 1);
    let b = g.subrange(0, i);
    if i == 0 {
        assert(a.drop_first() =~= Seq::<(Seq<char>, Seq<Seq<char>>)>::empty());
        assert(b =~= Seq::<(Seq<char>, Seq<Seq<char>>)>::empty());
        assert(other_choices(a.drop_first(), code) == Seq::<Seq<char>>::empty());
        if g[0].0 == code {
        } else {
            assert(other_choices(a, code) =~= g[0].1);
        }
    } else {
        let t = g.drop_first();
        lemma_other_choices_push(t, code, i - 1);
        assert(a.drop_first() =~= t.subrange(0, i));
        assert(b.drop_first() =~= t.subrange(0, i - 1));
        assert(t[i - 1] == g[i]);
        assert(a[0] == g[0] && b[0] == g[0]);
        if g[0].0 == code {
        } else {
            assert(other_choices(a, code) =~= g[0].1 + other_choices(t.subrange(0, i), code));
            assert(other_choices(b, code) =~= g[0].1 + other_choices(t.subrange(0, i - 1), code));
        }
    }
}

/// The choices of a choice-group question: every variant of every answer of the
/// group except the correct one.
fn collect_other_choices(group: &Vec<(String, Vec<String>)>, code: &str) -> (r: Vec<String>)
    ensures
        r.deep_view() == other_choices(group.deep_view(), code@),
{
    let mut choices: Vec<String> = Vec::new();
    let mut i: usize = 0;
    assert(group.deep_view().subrange(0, 0) =~= Seq::<(Seq<char>, Seq<Seq<char>>)>::empty());
    assert(choices.deep_view() =~= Seq::<Seq<char>>::empty());
    while i < group.len()
        invariant
            0 <= i <= group.len(),
            choices.deep_view() == other_choices(group.deep_view().subrange(0, i as int), code@),
        decreases group.len() - i,
    {
        proof {
            lemma_other_choices_push(group.deep_view(), code@, i as int);
        }
        if !str_eq(group[i].0.as_str(), code) {
            let variants = &group[i].1;
            let mut j: usize = 0;
            let ghost start = choices.deep_view();
            while j < variants.len()
                invariant
                    0 <= j <= variants.len(),
                    choices.deep_view() == start + variants.deep_view().subrange(0, j as int),
                decreases variants.len() - j,
            {
                let ghost before = choices.deep_view();
                let c = variants[j].clone();
                choices.push(c);
                assert(choices.deep_view() =~= before.push(c@));
                j += 1;
                assert(choices.deep_view() =~= start + variants.deep_view().subrange(0, j as int));
            }
            assert(variants.deep_view().subrange(0, j as int) =~= variants.deep_view());
            assert(group.deep_view()[i as int].1 == variants.deep_view());
        }
        i += 1;
    }
    assert(group.deep_view().subrange(0, i as int) =~= group.deep_view());
    choices
}

/// Build the part of a question that all kinds share.
pub fn make_common(entry: &QuestionEntry, tags: Vec<String>, prior: Vec<QuestionResult>, timeout: Option<u64>) -> (r: QuestionCommon)
    ensures
        r@ == (QuestionCommonView {
            id: entry.id@,
            prior_results: prior.deep_view(),
            tags: tags.deep_view(),
            location: entry.location@,
            timeout,
        }),
{
    QuestionCommon {
        id: entry.id.clone(),
        prior_results: prior,
        tags,
        location: entry.location.duplicate(),
        timeout,
    }
}

/// The answers of each of the lines, split at `/`.
pub fn split_all(lines: &Vec<String>) -> (r: Vec<Answer>)
    ensures
        r.deep_view() == lines.deep_view().map_values(|l: Seq<char>| split_trimmed(l, "/"@)),
{
    let mut out: Vec<Answer> = Vec::new();
    let mut i: usize = 0;
    while i < lines.len()
        invariant
            0 <= i <= lines.len(),
            out.deep_view() == lines.deep_view().subrange(0, i as int).map_values(
                |l: Seq<char>| split_trimmed(l, "/"@),
            ),
        decreases lines.len() - i,
    {
        let ghost before = out.deep_view();
        let a = split(lines[i].as_str(), "/");
        out.push(a);
        proof {
            reveal_strlit("/");
            assert(out.deep_view() =~= before.push(a.deep_view()));
        }
        i += 1;
        assert(out.deep_view() =~= lines.deep_view().subrange(0, i as int).map_values(
            |l: Seq<char>| split_trimmed(l, "/"@),
        ));
    }
    assert(lines.deep_view().subrange(0, i as int) =~= lines.deep_view());
    out
}

/// The error for an entry with an attribute that refers to nothing.
pub fn entry_error(lineno: usize, message: &str) -> (e: QuizError)
    ensures
        e@ == parse_error(lineno as nat, true, message@),
{
    QuizError::Parse { line: lineno, whole_entry: true, message: owned(message) }
}

/// The question that the entry `entry` defines, given the choice groups defined
/// before it and the stored results.
pub fn entry_to_question(
    entry: &QuestionEntry,
    choice_groups: &Vec<(String, Vec<(String, Vec<String>)>)>,
    old_results: &StoredResults,
) -> (r: Result<Question, QuizError>)
    ensures
        entry_question(entry@, choice_groups.deep_view(), old_results@, entry.location.path@) matches Ok(q)
            ==> (r matches Ok(x) && x@ == q),
        entry_question(entry@, choice_groups.deep_view(), old_results@, entry.location.path@) matches Err(e)
            ==> (r matches Err(x) && x@ == e),
{
    let lineno = entry.location.line;
    let attrs = &entry.attributes;
    let tags = match assoc_find(attrs, "tags") {
        Some(i) => split(attrs[i].1.as_str(), ","),
        None => Vec::new(),
    };
    assert(tags.deep_view() == (match assoc_get(entry@.attributes, "tags"@) {
        Some(v) => split_trimmed(v, ","@),
        None => Seq::<Seq<char>>::empty(),
    }));
    let prior = match old_results.get(entry.id.as_str()) {
        Some(v) => clone_results(v),
        None => Vec::new(),
    };
    assert(prior.deep_view() == (match assoc_get(old_results@, entry@.id) {
        Some(rs) => rs,
        None => Seq::<QuestionResultView>::empty(),
    }));
    if entry.following.len() == 1 {
        match check_fields(attrs, &two("choices", "tags"), lineno) {
            Ok(()) => {},
            Err(e) => {
                return Err(e);
            },
        }
        let answer = split(entry.following[0].as_str(), "/");
        let common = make_common(entry, tags, prior, None);
        match assoc_find(attrs, "choices") {
            Some(i) => {
                let choices = split(attrs[i].1.as_str(), "/");
                Ok(
                    Question::MultipleChoice(
                        MultipleChoiceQuestion { text: entry.text.clone(), answer, choices, common },
                    ),
                )
            },
            None => Ok(
                Question::ShortAnswer(ShortAnswerQuestion { text: entry.text.clone(), answer, common }),
            ),
        }
    } else if entry.following.len() == 0 {
        let tv = chars_of(entry.text.as_str());
        match find_char(&tv, '=') {
            Some(eq) => {
                proof {
                    crate::text::lemma_find_from(tv@, seq!['='], 0);
                }
                match check_fields(attrs, &one("tags"), lineno) {
                    Ok(()) => {},
                    Err(e) => {
                        return Err(e);
                    },
                }
                let frnt = trimmed_piece(&tv, 0, eq);
                let (front, front_context) = match get_context(frnt.as_str(), lineno) {
                    Ok(x) => x,
                    Err(e) => {
                        return Err(e);
                    },
                };
                assert(crate::text::matches_at(tv@, seq!['='], eq as int));
                assert(seq!['='].len() == 1);
                assert(eq < tv.len());
                let bck = string_of(&tv, eq + 1, tv.len());
                let (back, back_context) = match get_context(bck.as_str(), lineno) {
                    Ok(x) => x,
                    Err(e) => {
                        return Err(e);
                    },
                };
                let common = make_common(entry, tags, prior, None);
                Ok(
                    Question::Flashcard(
                        FlashcardQuestion {
                            front: split(front.as_str(), "/"),
                            back: split(back.as_str(), "/"),
                            front_context,
                            back_context,
                            common,
                        },
                    ),
                )
            },
            None => match assoc_find(attrs, "choice-group") {
                Some(gi) => match assoc_find(attrs, "choice-group-answer") {
                    None => Err(
                        entry_error(lineno, "question has choice-group but not choice-group-answer"),
                    ),
                    Some(ai) => match assoc_find(choice_groups, attrs[gi].1.as_str()) {
                        None => Err(entry_error(lineno, "choice group does not exist")),
                        Some(k) => {
                            let group = &choice_groups[k].1;
                            assert(group.deep_view() == choice_groups.deep_view()[k as int].1);
                            match assoc_find(group, attrs[ai].1.as_str()) {
                                None => Err(entry_error(lineno, "choice group answer does not exist")),
                                Some(a) => {
                                    let answer = crate::quiz::clone_strings(&group[a].1);
                                    assert(answer.deep_view() == group.deep_view()[a as int].1);
                                    let choices = collect_other_choices(group, attrs[ai].1.as_str());
                                    let common = make_common(entry, tags, prior, None);
                                    Ok(
                                        Question::MultipleChoice(
                                            MultipleChoiceQuestion {
                                                text: entry.text.clone(),
                                                answer,
                                                choices,
                                                common,
                                            },
                                        ),
                                    )
                                },
                            }
                        },
                    },
                },
                None => Err(entry_error(lineno, "question has no answer")),
            },
        }
    } else {
        match check_fields(attrs, &three("nocredit", "ordered", "tags"), lineno) {
            Ok(()) => {},
            Err(e) => {
                return Err(e);
            },
        }
        let ordered = match assoc_find(attrs, "ordered") {
            Some(i) => {
                let o = attrs[i].1.as_str();
                let is_true = str_eq(o, "true");
                if !is_true && !str_eq(o, "false") {
                    return Err(entry_error(lineno, "ordered field must be either 'true' or 'false'"));
                }
                is_true
            },
            None => false,
        };
        let no_credit = match assoc_find(attrs, "nocredit") {
            Some(i) => split(attrs[i].1.as_str(), "/"),
            None => Vec::new(),
        };
        assert(no_credit.deep_view() == (match assoc_get(entry@.attributes, "nocredit"@) {
            Some(v) => split_trimmed(v, "/"@),
            None => Seq::<Seq<char>>::empty(),
        }));
        let answer_list = split_all(&entry.following);
        let common = make_common(entry, tags, prior, None);
        if ordered {
            Ok(
                Question::OrderedList(
                    OrderedListQuestion { text: entry.text.clone(), answer_list, no_credit, common },
                ),
            )
        } else {
            Ok(Question::List(ListQuestion { text: entry.text.clone(), answer_list, no_credit, common }))
        }
    }
}

/// Give the question the quiz-wide timeout, if it has none of its own and is not
/// a list question.
pub fn apply_global_settings(settings: &GlobalSettings, question: &mut Question)
    ensures
        final(question)@ == with_global_timeout(old(question)@, settings.timeout),
{
    if let Some(timeout) = settings.timeout {
        match question {
            Question::ShortAnswer(q) => {
                if q.common.timeout.is_none() {
                    q.common.timeout = Some(timeout);
                }
            },
            Question::Flashcard(q) => {
                if q.common.timeout.is_none() {
                    q.common.timeout = Some(timeout);
                }
            },
            Question::MultipleChoice(q) => {
                if q.common.timeout.is_none() {
                    q.common.timeout = Some(timeout);
                }
            },
            _ => {},
        }
    }
}

/// The error for an entry that repeats an ID.
fn duplicate_error(lineno: usize, message: &str) -> (e: QuizError)
    ensures
        e@ == parse_error(lineno as nat, false, message@),
{
    QuizError::Parse { line: lineno, whole_entry: false, message: owned(message) }
}

/// Read the quiz that `text`, the contents of the file at `path`, holds, and
/// attach to each question the results stored for it in `old_results`.
pub fn parse(text: &str, path: &str, old_results: &StoredResults) -> (r: Result<Quiz, QuizError>)
    ensures
        quiz_of(text@, path@, old_results@) matches Ok(q) ==> (r matches Ok(x) && x@ == q),
        quiz_of(text@, path@, old_results@) matches Err(e) ==> (r matches Err(x) && x@ == e),
{
    let mut reader = QuizReader::new(text);
    let quiz_settings = match read_settings(&mut reader) {
        Ok(s) => s,
        Err(e) => {
            return Err(e);
        },
    };
    let ghost start = reader.remaining();
    let mut questions: Vec<Question> = Vec::new();
    let mut used_ids: Vec<String> = Vec::new();
    let mut choice_groups: Vec<(String, Vec<(String, Vec<String>)>)> = Vec::new();
    let ghost empty = empty_build();
    proof {
        lemma_quiz_of(text@, path@, old_results@, quiz_settings@, start);
    }
    assert(questions.deep_view() =~= empty.questions);
    assert(used_ids.deep_view() =~= empty.used_ids);
    assert(choice_groups.deep_view() =~= empty.groups);
    loop
        invariant_except_break
            reader.wf(),
            entries_from(start, empty_build(), old_results@, path@) == entries_from(
                reader.remaining(),
                BuildView {
                    questions: questions.deep_view(),
                    used_ids: used_ids.deep_view(),
                    groups: choice_groups.deep_view(),
                },
                old_results@,
                path@,
            ),
        invariant
            settings(tokens_from(lines_of(text@), 0)) == Ok::<(SettingsView, Seq<Tok>), QuizErrorView>(
                (quiz_settings@, start),
            ),
        ensures
            entries_from(start, empty_build(), old_results@, path@) == Ok::<Seq<QuestionView>, QuizErrorView>(
                questions.deep_view(),
            ),
        decreases reader.remaining().len(),
    {
        let ghost before = reader.remaining();
        proof {
            lemma_next_entry_shrinks(before);
        }
        match read_entry(path, &mut reader) {
            Ok(Some(FileEntry::QuestionEntry(entry))) => {
                let ghost b = BuildView {
                    questions: questions.deep_view(),
                    used_ids: used_ids.deep_view(),
                    groups: choice_groups.deep_view(),
                };
                assert(next_entry(before) == Ok::<Option<(FileEntryView, Seq<Tok>)>, QuizErrorView>(
                    Some((FileEntryView::Question(entry@), reader.remaining())),
                ));
                assert(entry.location.path@ == path@);
                let q = match entry_to_question(&entry, &choice_groups, old_results) {
                    Ok(q) => q,
                    Err(e) => {
                        assert(entry_question(entry@, b.groups, old_results@, path@) == Err::<QuestionView, QuizErrorView>(e@));
                        assert(entries_from(before, b, old_results@, path@) == Err::<Seq<QuestionView>, QuizErrorView>(e@));
                        proof {
                            lemma_quiz_of(text@, path@, old_results@, quiz_settings@, start);
                        }
                        assert(quiz_of(text@, path@, old_results@) == Err::<QuizView, QuizErrorView>(e@));
                        return Err(e);
                    },
                };
                let id = q.get_common().id.clone();
                if contains_string(&used_ids, id.as_str()) {
                    return Err(duplicate_error(entry.location.line, "duplicate question ID"));
                }
                let ghost old_ids = used_ids.deep_view();
                let ghost old_qs = questions.deep_view();
                used_ids.push(id);
                questions.push(q);
                assert(used_ids.deep_view() =~= old_ids.push(common_of(q@).id));
                assert(questions.deep_view() =~= old_qs.push(q@));
            },
            Ok(Some(FileEntry::ChoiceGroupEntry(entry))) => {
                if assoc_find(&choice_groups, entry.id.as_str()).is_some() {
                    return Err(duplicate_error(entry.location.line, "duplicate choice group ID"));
                }
                let ghost old_groups = choice_groups.deep_view();
                let ghost gv = entry@;
                choice_groups.push((entry.id, entry.choices));
                assert(choice_groups.deep_view() =~= old_groups.push((gv.id, gv.choices)));
            },
            Ok(None) => {
                break;
            },
            Err(e) => {
                proof {
                    lemma_quiz_of(text@, path@, old_results@, quiz_settings@, start);
                }
                assert(quiz_of(text@, path@, old_results@) == Err::<QuizView, QuizErrorView>(e@));
                return Err(e);
            },
        }
    }
    let quiz = Quiz { instructions: quiz_settings.instructions, questions };
    Ok(quiz)
}

} // verus!
