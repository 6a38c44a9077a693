//! The earlier version of the textual quiz format: no choice groups, timeouts
//! for questions and for the whole quiz, entries separated by exactly one blank
//! line, and any setting other than the known ones ignored.
use vstd::prelude::*;

use crate::common::{LocationView, QuizError};
use crate::format::{
    assoc_get, assoc_insert, bad_line, classify, context_of, keys_distinct, lines_of,
    parse_error, timeout_of, u64_value, with_global_timeout, FileLineView, LineKind,
    QuestionEntryView, SettingsView, Tok,
};
use crate::persistence::{
    apply_global_settings, assoc_find, assoc_put, char_views, classify_line, entry_error,
    get_context, location_at, make_common, owned, parse_u64, split, split_lines, timeout_attr,
    Classified, FileLine, GlobalSettings, QuestionEntry,
};
use crate::quiz::{
    FlashcardQuestion, ListQuestion, MultipleChoiceQuestion, OrderedListQuestion, Question,
    QuestionCommonView, QuestionResult, QuestionView, Quiz, QuizView, ShortAnswerQuestion,
};
use crate::text::{chars_of, find, find_char, split_trimmed, starts_with, str_eq, string_of, trim, trim_chars};

verus! {

/// The kind of the trimmed line `t` in the earlier format, where a line that
/// is neither a comment, blank, an attribute nor the first line of a question is
/// an answer line.
pub open spec fn classify_v2(t: Seq<char>) -> LineKind {
    if "#"@.is_prefix_of(t) || t.len() == 0 || "- "@.is_prefix_of(t) || ("["@.is_prefix_of(t) && find(
        t,
        seq![']'],
    ) is Some) {
        classify(t)
    } else {
        LineKind::Line(FileLineView::Following(t))
    }
}

/// The lines that the reader hands on, from the physical line `p` on: comments
/// are skipped, and nothing follows a line that could not be read.
pub open spec fn tokens_v2(lines: Seq<Seq<char>>, p: nat) -> Seq<Tok>
    decreases lines.len() - p,
{
    if p >= lines.len() {
        Seq::empty()
    } else {
        match classify_v2(trim(lines[p as int])) {
            LineKind::Comment => tokens_v2(lines, p + 1),
            LineKind::Bad(m) => seq![Tok::Bad { lineno: p + 1, message: m }],
            LineKind::Line(l) => seq![Tok::Line { line: l, lineno: p + 1 }] + tokens_v2(lines, p + 1),
        }
    }
}

/// Classify the trimmed line `t` in the earlier format.
pub fn classify_line_v2(t: &Vec<char>) -> (r: Classified)
    ensures
        r@ == classify_v2(t@),
{
    let special = starts_with(t, &chars_of("#")) || t.len() == 0 || starts_with(t, &chars_of("- "))
        || (starts_with(t, &chars_of("[")) && find_char(t, ']').is_some());
    if special {
        classify_line(t)
    } else {
        let whole = string_of(t, 0, t.len());
        assert(whole@ =~= t@);
        Classified::Line(FileLine::Following(whole))
    }
}

/// Reads the meaningful lines of a quiz file in the earlier format one at a
/// time, and lets the caller put the last one back.
pub struct QuizReader {
    lines: Vec<Vec<char>>,
    /// How many physical lines have been read.
    pos: usize,
    /// A line that was read one too many and put back.
    pushed: Option<FileLine>,
    /// The number of the last line read.
    line: usize,
}

impl QuizReader {
    /// The reader is consistent.
    pub closed spec fn wf(&self) -> bool {
        &&& self.pos <= self.lines.len()
        &&& self.line == self.pos
    }

    /// The lines that reads will hand on from now on.
    pub closed spec fn remaining(&self) -> Seq<Tok> {
        let later = tokens_v2(char_views(self.lines@), self.pos as nat);
        match self.pushed {
            Some(l) => seq![Tok::Line { line: l@, lineno: self.line as nat }] + later,
            None => later,
        }
    }

    /// The number of the last line read.
    pub closed spec fn lineno(&self) -> nat {
        self.line as nat
    }

    /// A line has been put back.
    pub closed spec fn holds_pushed(&self) -> bool {
        self.pushed is Some
    }

    /// A reader of the lines of `text`.
    pub fn new(text: &str) -> (r: QuizReader)
        ensures
            r.wf(),
            r.remaining() == tokens_v2(lines_of(text@), 0),
            r.lineno() == 0,
            !r.holds_pushed(),
    {
        let chars = chars_of(text);
        QuizReader { lines: split_lines(&chars), pos: 0, pushed: None, line: 0 }
    }

    /// The number of the last line read.
    pub fn line(&self) -> (r: usize)
        ensures
            r == self.lineno(),
    {
        self.line
    }

    /// Push a line so that the next time `read_line` is called it returns `line`.
    pub fn push(&mut self, line: FileLine)
        requires
            old(self).wf(),
            !old(self).holds_pushed(),
        ensures
            final(self).wf(),
            final(self).lineno() == old(self).lineno(),
            final(self).remaining() == seq![Tok::Line { line: line@, lineno: old(self).lineno() }]
                + old(self).remaining(),
    {
        self.pushed = Some(line);
    }

    /// Read a line: `Ok(Some(_))` for a line, `Ok(None)` at the end of the file,
    /// `Err(_)` for a line that could not be read.
    pub fn read_line(&mut self) -> (r: Result<Option<FileLine>, QuizError>)
        requires
            old(self).wf(),
        ensures
            final(self).wf(),
            !final(self).holds_pushed(),
            old(self).remaining().len() == 0 ==> (r matches Ok(None)),
            old(self).remaining().len() == 0 ==> final(self).remaining().len() == 0,
            old(self).remaining().len() > 0 ==> match old(self).remaining()[0] {
                Tok::Bad { lineno, .. } => {
                    &&& (r matches Err(e) && e@ == bad_line(old(self).remaining()[0]))
                    &&& final(self).lineno() == lineno
                },
                Tok::Line { line, lineno } => {
                    &&& (r matches Ok(Some(l)) && l@ == line)
                    &&& final(self).remaining() == old(self).remaining().drop_first()
                    &&& final(self).lineno() == lineno
                },
            },
    {
        if self.pushed.is_some() {
            let l = self.pushed.take();
            return Ok(l);
        }
        loop
            invariant
                self.wf(),
                self.pushed is None,
                self.remaining() == old(self).remaining(),
            decreases self.lines.len() - self.pos,
        {
            if self.pos >= self.lines.len() {
                return Ok(None);
            }
            let t = trim_chars(&self.lines[self.pos]);
            assert(char_views(self.lines@)[self.pos as int] == self.lines@[self.pos as int]@);
            self.pos += 1;
            self.line += 1;
            match classify_line_v2(&t) {
                Classified::Comment => {},
                Classified::Bad(m) => {
                    return Err(QuizError::Parse { line: self.line, whole_entry: false, message: m });
                },
                Classified::Line(l) => {
                    return Ok(Some(l));
                },
            }
        }
    }
}

/// The settings that the lines `rest` give, after those in `acc`, and the lines
/// that follow them: `instructions` and `timeout` are read, other keys are
/// ignored. `first` says whether no line has been read yet.
pub open spec fn settings_v2_from(rest: Seq<Tok>, first: bool, acc: SettingsView) -> Result<
    (SettingsView, Seq<Tok>),
    crate::common::QuizErrorView,
>
    decreases rest.len(),
{
    if rest.len() == 0 {
        Ok((acc, rest))
    } else {
        match rest[0] {
            Tok::Bad { .. } => Err(bad_line(rest[0])),
            Tok::Line { line, lineno } => match line {
                FileLineView::Pair(key, val) => {
                    if key == "instructions"@ {
                        settings_v2_from(rest.drop_first(), false, SettingsView { instructions: Some(val), ..acc })
                    } else if key == "timeout"@ {
                        match u64_value(val) {
                            Some(t) => settings_v2_from(
                                rest.drop_first(),
                                false,
                                SettingsView { timeout: Some(t), ..acc },
                            ),
                            None => Err(parse_error(lineno, false, "could not parse integer"@)),
                        }
                    } else {
                        settings_v2_from(rest.drop_first(), false, acc)
                    }
                },
                FileLineView::Blank => Ok((acc, rest.drop_first())),
                _ => if first {
                    Ok((acc, rest))
                } else {
                    Err(parse_error(lineno, false, "no blank line after quiz settings"@))
                },
            },
        }
    }
}

/// The settings of a quiz file in the earlier format and the lines that follow.
pub open spec fn settings_v2(rest: Seq<Tok>) -> Result<(SettingsView, Seq<Tok>), crate::common::QuizErrorView> {
    settings_v2_from(rest, true, SettingsView { instructions: None, timeout: None })
}

/// Read the initial settings from the file.
pub fn read_settings(reader: &mut QuizReader) -> (r: Result<GlobalSettings, QuizError>)
    requires
        old(reader).wf(),
    ensures
        final(reader).wf(),
        settings_v2(old(reader).remaining()) matches Ok((s, rest)) ==> (r matches Ok(g) && g@ == s
            && final(reader).remaining() == rest),
        settings_v2(old(reader).remaining()) matches Err(e) ==> (r matches Err(x) && x@ == e),
{
    let mut acc = GlobalSettings { instructions: None, timeout: None };
    let mut first_line = true;
    loop
        invariant
            reader.wf(),
            settings_v2(old(reader).remaining()) == settings_v2_from(reader.remaining(), first_line, acc@),
        decreases reader.remaining().len(),
    {
        let ghost before = reader.remaining();
        let next = match reader.read_line() {
            Ok(x) => x,
            Err(e) => {
                return Err(e);
            },
        };
        match next {
            Some(FileLine::Pair(key, val)) => {
                if str_eq(key.as_str(), "instructions") {
                    acc.instructions = Some(val);
                } else if str_eq(key.as_str(), "timeout") {
                    match parse_u64(val.as_str(), reader.line()) {
                        Ok(t) => {
                            acc.timeout = Some(t);
                        },
                        Err(e) => {
                            return Err(e);
                        },
                    }
                }
            },
            Some(FileLine::Blank) => {
                return Ok(acc);
            },
            None => {
                assert(reader.remaining() =~= before);
                return Ok(acc);
            },
            Some(line) => {
                if first_line {
                    reader.push(line);
                    assert(reader.remaining() =~= before);
                    return Ok(acc);
                } else {
                    return Err(
                        QuizError::Parse {
                            line: reader.line(),
                            whole_entry: false,
                            message: owned("no blank line after quiz settings"),
                        },
                    );
                }
            },
        }
        first_line = false;
    }
}

/// The rest of a question whose first lines made `e`, and the lines that
/// follow: the question ends at a blank line or at the end of the file, and the
/// first line of another question before that is an error.
pub open spec fn body_v2(rest: Seq<Tok>, e: QuestionEntryView) -> Result<
    (QuestionEntryView, Seq<Tok>),
    crate::common::QuizErrorView,
>
    decreases rest.len(),
{
    if rest.len() == 0 {
        Ok((e, rest))
    } else {
        match rest[0] {
            Tok::Bad { .. } => Err(bad_line(rest[0])),
            Tok::Line { line, lineno } => match line {
                FileLineView::Blank => Ok((e, rest.drop_first())),
                FileLineView::Following(l) => body_v2(
                    rest.drop_first(),
                    QuestionEntryView { following: e.following.push(l), ..e },
                ),
                FileLineView::Pair(k, v) => body_v2(
                    rest.drop_first(),
                    QuestionEntryView { attributes: assoc_insert(e.attributes, k, v), ..e },
                ),
                _ => Err(parse_error(lineno, false, "no blank line between questions"@)),
            },
        }
    }
}

/// The next question of the file and the lines that follow it; `None` at the
/// end of the file. Anything but the first line of a question is an error.
pub open spec fn next_entry_v2(rest: Seq<Tok>) -> Result<
    Option<(QuestionEntryView, Seq<Tok>)>,
    crate::common::QuizErrorView,
> {
    if rest.len() == 0 {
        Ok(None)
    } else {
        match rest[0] {
            Tok::Bad { .. } => Err(bad_line(rest[0])),
            Tok::Line { line, lineno } => match line {
                FileLineView::First(id, text) => match body_v2(
                    rest.drop_first(),
                    QuestionEntryView { id, text, following: Seq::empty(), attributes: Seq::empty(), line: lineno },
                ) {
                    Ok((e, r)) => Ok(Some((e, r))),
                    Err(x) => Err(x),
                },
                _ => Err(parse_error(lineno, false, "expected first line of question"@)),
            },
        }
    }
}

/// The lines that follow a question body are a suffix of the lines it began with.
pub proof fn lemma_body_v2_shrinks(rest: Seq<Tok>, e: QuestionEntryView)
    ensures
        body_v2(rest, e) matches Ok((_, r)) ==> r.len() <= rest.len(),
    decreases rest.len(),
{
    if rest.len() > 0 {
        match rest[0] {
            Tok::Line { line, .. } => match line {
                FileLineView::Following(l) => lemma_body_v2_shrinks(
                    rest.drop_first(),
                    QuestionEntryView { following: e.following.push(l), ..e },
                ),
                FileLineView::Pair(k, v) => lemma_body_v2_shrinks(
                    rest.drop_first(),
                    QuestionEntryView { attributes: assoc_insert(e.attributes, k, v), ..e },
                ),
                _ => {},
            },
            _ => {},
        }
    }
}

/// Reading an entry consumes at least one line.
pub proof fn lemma_next_entry_v2_shrinks(rest: Seq<Tok>)
    ensures
        next_entry_v2(rest) matches Ok(Some((_, r))) ==> r.len() < rest.len(),
{
    if rest.len() > 0 {
        match rest[0] {
            Tok::Line { line, lineno } => match line {
                FileLineView::First(id, text) => lemma_body_v2_shrinks(
                    rest.drop_first(),
                    QuestionEntryView { id, text, following: Seq::empty(), attributes: Seq::empty(), line: lineno },
                ),
                _ => {},
            },
            _ => {},
        }
    }
}

/// Read a question from the file.
pub fn read_entry(path: &str, reader: &mut QuizReader) -> (r: Result<Option<QuestionEntry>, QuizError>)
    requires
        old(reader).wf(),
    ensures
        final(reader).wf(),
        !final(reader).holds_pushed(),
        next_entry_v2(old(reader).remaining()) matches Err(x) ==> (r matches Err(e) && e@ == x),
        next_entry_v2(old(reader).remaining()) matches Ok(None) ==> (r matches Ok(None)),
        next_entry_v2(old(reader).remaining()) matches Ok(Some((fe, rest))) ==> (r matches Ok(Some(e))
            && e@ == fe && e.location.path@ == path@ && final(reader).remaining() == rest),
{
    let ghost start = reader.remaining();
    let next = match reader.read_line() {
        Ok(x) => x,
        Err(e) => {
            return Err(e);
        },
    };
    match next {
        Some(FileLine::First(id, text)) => {
            let mut entry = QuestionEntry {
                id,
                text,
                following: Vec::new(),
                attributes: Vec::new(),
                location: location_at(path, reader.line()),
            };
            assert(entry.following.deep_view() =~= Seq::<Seq<char>>::empty());
            assert(entry.attributes.deep_view() =~= Seq::<(Seq<char>, Seq<char>)>::empty());
            loop
                invariant
                    reader.wf(),
                    !reader.holds_pushed(),
                    entry.location.path@ == path@,
                    keys_distinct(entry.attributes.deep_view()),
                    start == old(reader).remaining(),
                    next_entry_v2(start) == (match body_v2(reader.remaining(), entry@) {
                        Ok((e, r)) => Ok(Some((e, r))),
                        Err(x) => Err(x),
                    }),
                decreases reader.remaining().len(),
            {
                let ghost inner = reader.remaining();
                let line = match reader.read_line() {
                    Ok(x) => x,
                    Err(e) => {
                        return Err(e);
                    },
                };
                match line {
                    Some(FileLine::Blank) => {
                        return Ok(Some(entry));
                    },
                    None => {
                        assert(reader.remaining() =~= inner);
                        return Ok(Some(entry));
                    },
                    Some(FileLine::Following(l)) => {
                        let ghost old_following = entry.following.deep_view();
                        entry.following.push(l);
                        assert(entry.following.deep_view() =~= old_following.push(l@));
                    },
                    Some(FileLine::Pair(key, value)) => {
                        assoc_put(&mut entry.attributes, key, value);
                    },
                    Some(_) => {
                        return Err(
                            QuizError::Parse {
                                line: reader.line(),
                                whole_entry: false,
                                message: owned("no blank line between questions"),
                            },
                        );
                    },
                }
            }
        },
        None => Ok(None),
        Some(_) => Err(
            QuizError::Parse {
                line: reader.line(),
                whole_entry: false,
                message: owned("expected first line of question"),
            },
        ),
    }
}

/// The question that the entry `e` of the earlier format defines: one answer
/// line makes a short-answer question (multiple choice with `choices`), none a
/// flashcard (`front = back`, each side with an optional `[context]`), and more
/// a list question (ordered with `ordered: true`). A `timeout` attribute is read
/// first; list questions do not keep it.
pub open spec fn entry_question_v2(e: QuestionEntryView, path: Seq<char>) -> Result<
    QuestionView,
    crate::common::QuizErrorView,
> {
    let line = e.line;
    let tags = match assoc_get(e.attributes, "tags"@) {
        Some(v) => split_trimmed(v, ","@),
        None => Seq::empty(),
    };
    let common = |timeout: Option<u64>|
        QuestionCommonView {
            id: e.id,
            prior_results: Seq::empty(),
            tags,
            location: LocationView { line: line as usize, path },
            timeout,
        };
    match timeout_of(e.attributes, line) {
        Err(x) => Err(x),
        Ok(t) => if e.following.len() == 1 {
            let answer = split_trimmed(e.following[0], "/"@);
            match assoc_get(e.attributes, "choices"@) {
                Some(c) => Ok(
                    QuestionView::MultipleChoice {
                        text: e.text,
                        answer,
                        choices: split_trimmed(c, "/"@),
                        common: common(t),
                    },
                ),
                None => Ok(QuestionView::ShortAnswer { text: e.text, answer, common: common(t) }),
            }
        } else if e.following.len() == 0 {
            if find(e.text, seq!['=']) is Some {
                let eq = find(e.text, seq!['='])->0;
                match context_of(trim(e.text.subrange(0, eq)), line) {
                    Err(x) => Err(x),
                    Ok((front, front_context)) => match context_of(
                        e.text.subrange(eq + 1, e.text.len() as int),
                        line,
                    ) {
                        Err(x) => Err(x),
                        Ok((back, back_context)) => Ok(
                            QuestionView::Flashcard {
                                front: seq![front],
                                back: split_trimmed(back, "/"@),
                                front_context,
                                back_context,
                                common: common(t),
                            },
                        ),
                    },
                }
            } else {
                Err(parse_error(line, true, "question has no answer"@))
            }
        } else {
            let ordered = assoc_get(e.attributes, "ordered"@);
            if ordered matches Some(o) && o != "true"@ && o != "false"@ {
                Err(parse_error(line, true, "ordered field must be either 'true' or 'false'"@))
            } else {
                let no_credit = match assoc_get(e.attributes, "nocredit"@) {
                    Some(v) => split_trimmed(v, "/"@),
                    None => Seq::empty(),
                };
                let answer_list = e.following.map_values(|l: Seq<char>| split_trimmed(l, "/"@));
                if ordered == Some("true"@) {
                    Ok(QuestionView::OrderedList { text: e.text, answer_list, no_credit, common: common(None) })
                } else {
                    Ok(QuestionView::List { text: e.text, answer_list, no_credit, common: common(None) })
                }
            }
        },
    }
}

/// The question that the entry `entry` of the earlier format defines.
pub fn entry_to_question(entry: &QuestionEntry) -> (r: Result<Question, QuizError>)
    ensures
        entry_question_v2(entry@, entry.location.path@) matches Ok(q) ==> (r matches Ok(x) && x@ == q),
        entry_question_v2(entry@, entry.location.path@) matches Err(e) ==> (r matches Err(x) && x@ == e),
{
    let lineno = entry.location.line;
    let attrs = &entry.attributes;
    let tags = match assoc_find(attrs, "tags") {
        Some(i) => split(attrs[i].1.as_str(), ","),
        None => Vec::new(),
    };
    assert(tags.deep_view() == (match assoc_get(entry@.attributes, "tags"@) {
        Some(v) => split_trimmed(v, ","@),
        None => Seq::<Seq<char>>::empty(),
    }));
    let t = match timeout_attr(attrs, lineno) {
        Ok(t) => t,
        Err(e) => {
            return Err(e);
        },
    };
    let prior: Vec<QuestionResult> = Vec::new();
    assert(prior.deep_view() =~= Seq::<crate::quiz::QuestionResultView>::empty());
    if entry.following.len() == 1 {
        let answer = split(entry.following[0].as_str(), "/");
        let common = make_common(entry, tags, prior, t);
        match assoc_find(attrs, "choices") {
            Some(i) => {
                let choices = split(attrs[i].1.as_str(), "/");
                Ok(
                    Question::MultipleChoice(
                        MultipleChoiceQuestion { text: entry.text.clone(), answer, choices, common },
                    ),
                )
            },
            None => Ok(
                Question::ShortAnswer(ShortAnswerQuestion { text: entry.text.clone(), answer, common }),
            ),
        }
    } else if entry.following.len() == 0 {
        let tv = chars_of(entry.text.as_str());
        match find_char(&tv, '=') {
            Some(eq) => {
                proof {
                    crate::text::lemma_find_from(tv@, seq!['='], 0);
                }
                let frnt = crate::persistence::trimmed_piece(&tv, 0, eq);
                let (front, front_context) = match get_context(frnt.as_str(), lineno) {
                    Ok(x) => x,
                    Err(e) => {
                        return Err(e);
                    },
                };
                assert(crate::text::matches_at(tv@, seq!['='], eq as int));
                assert(eq < tv.len());
                let bck = string_of(&tv, eq + 1, tv.len());
                let (back, back_context) = match get_context(bck.as_str(), lineno) {
                    Ok(x) => x,
                    Err(e) => {
                        return Err(e);
                    },
                };
                let common = make_common(entry, tags, prior, t);
                let mut fronts: Vec<String> = Vec::new();
                let ghost fv = front@;
                fronts.push(front);
                assert(fronts.deep_view() =~= seq![fv]);
                Ok(
                    Question::Flashcard(
                        FlashcardQuestion {
                            front: fronts,
                            back: split(back.as_str(), "/"),
                            front_context,
                            back_context,
                            common,
                        },
                    ),
                )
            },
            None => Err(entry_error(lineno, "question has no answer")),
        }
    } else {
        let ordered = match assoc_find(attrs, "ordered") {
            Some(i) => {
                let o = attrs[i].1.as_str();
                let is_true = str_eq(o, "true");
                if !is_true && !str_eq(o, "false") {
                    return Err(entry_error(lineno, "ordered field must be either 'true' or 'false'"));
                }
                is_true
            },
            None => false,
        };
        let no_credit = match assoc_find(attrs, "nocredit") {
            Some(i) => split(attrs[i].1.as_str(), "/"),
            None => Vec::new(),
        };
        assert(no_credit.deep_view() == (match assoc_get(entry@.attributes, "nocredit"@) {
            Some(v) => split_trimmed(v, "/"@),
            None => Seq::<Seq<char>>::empty(),
        }));
        let answer_list = crate::persistence::split_all(&entry.following);
        let common = make_common(entry, tags, prior, None);
        if ordered {
            Ok(
                Question::OrderedList(
                    OrderedListQuestion { text: entry.text.clone(), answer_list, no_credit, common },
                ),
            )
        } else {
            Ok(Question::List(ListQuestion { text: entry.text.clone(), answer_list, no_credit, common }))
        }
    }
}

/// The questions of the entries `rest`, after those in `acc`.
pub open spec fn entries_v2(rest: Seq<Tok>, acc: Seq<QuestionView>, path: Seq<char>) -> Result<
    Seq<QuestionView>,
    crate::common::QuizErrorView,
>
    decreases rest.len(),
{
    match next_entry_v2(rest) {
        Err(x) => Err(x),
        Ok(None) => Ok(acc),
        Ok(Some((e, r))) => {
            proof {
                lemma_next_entry_v2_shrinks(rest);
            }
            match entry_question_v2(e, path) {
                Err(x) => Err(x),
                Ok(q) => entries_v2(r, acc.push(q), path),
            }
        },
    }
}

/// The quiz that the text `text` of the file at `path` holds in the earlier
/// format, with the quiz-wide timeout given to the questions that take it; or
/// the error that stops reading it.
pub open spec fn quiz_of_v2(text: Seq<char>, path: Seq<char>) -> Result<QuizView, crate::common::QuizErrorView> {
    match settings_v2(tokens_v2(lines_of(text), 0)) {
        Err(x) => Err(x),
        Ok((s, rest)) => match entries_v2(rest, Seq::empty(), path) {
            Err(x) => Err(x),
            Ok(qs) => Ok(
                QuizView {
                    instructions: s.instructions,
                    questions: qs.map_values(|q: QuestionView| with_global_timeout(q, s.timeout)),
                },
            ),
        },
    }
}

/// Read the quiz that `text`, the contents of the file at `path`, holds in the
/// earlier format.
pub fn parse(text: &str, path: &str) -> (r: Result<Quiz, QuizError>)
    ensures
        quiz_of_v2(text@, path@) matches Ok(q) ==> (r matches Ok(x) && x@ == q),
        quiz_of_v2(text@, path@) matches Err(e) ==> (r matches Err(x) && x@ == e),
{
    let mut reader = QuizReader::new(text);
    let quiz_settings = match read_settings(&mut reader) {
        Ok(s) => s,
        Err(e) => {
            return Err(e);
        },
    };
    let ghost start = reader.remaining();
    let mut questions: Vec<Question> = Vec::new();
    assert(questions.deep_view() =~= Seq::<QuestionView>::empty());
    loop
        invariant_except_break
            reader.wf(),
            entries_v2(start, Seq::empty(), path@) == entries_v2(reader.remaining(), questions.deep_view(), path@),
        invariant
            settings_v2(tokens_v2(lines_of(text@), 0)) == Ok::<(SettingsView, Seq<Tok>), crate::common::QuizErrorView>(
                (quiz_settings@, start),
            ),
        ensures
            entries_v2(start, Seq::empty(), path@) == Ok::<Seq<QuestionView>, crate::common::QuizErrorView>(
                questions.deep_view(),
            ),
        decreases reader.remaining().len(),
    {
        let ghost before = reader.remaining();
        proof {
            lemma_next_entry_v2_shrinks(before);
        }
        match read_entry(path, &mut reader) {
            Ok(Some(entry)) => {
                let q = match entry_to_question(&entry) {
                    Ok(q) => q,
                    Err(e) => {
                        return Err(e);
                    },
                };
                let ghost old_qs = questions.deep_view();
                questions.push(q);
                assert(questions.deep_view() =~= old_qs.push(q@));
            },
            Ok(None) => {
                break;
            },
            Err(e) => {
                return Err(e);
            },
        }
    }
    let ghost built = questions.deep_view();
    let n = questions.len();
    let mut i: usize = 0;
    while i < n
        invariant
            0 <= i <= n == questions.len(),
            built.len() == n,
            forall|k: int| 0 <= k < i ==> #[trigger] questions.deep_view()[k] == with_global_timeout(
                built[k],
                quiz_settings.timeout,
            ),
            forall|k: int| i <= k < n ==> #[trigger] questions.deep_view()[k] == built[k],
        decreases n - i,
    {
        let ghost before = questions@;
        let ghost before_dv = questions.deep_view();
        let mut q = questions.remove(i);
        assert(q@ == before_dv[i as int]);
        apply_global_settings(&quiz_settings, &mut q);
        questions.insert(i, q);
        proof {
            assert(questions@ =~= before.update(i as int, q));
            assert(questions.deep_view() =~= before_dv.update(i as int, q@));
        }
        i += 1;
    }
    let quiz = Quiz { instructions: quiz_settings.instructions, questions };
    assert(quiz@.questions =~= built.map_values(|q: QuestionView| with_global_timeout(q, quiz_settings.timeout)));
    Ok(quiz)
}

} // verus!
