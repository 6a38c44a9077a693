//! The textual quiz format, stated as spec functions: how a file is cut into
//! lines, what kind of line each one is, and how the lines make up settings,
//! questions and choice groups.
use vstd::prelude::*;

use crate::common::{LocationView, QuizErrorView};
use crate::quiz::{QuestionCommonView, QuestionResultView, QuestionView, QuizView};
use crate::text::{find, split_trimmed, trim};

verus! {

/// The lines of `s` as `BufRead::read_line` reads them, each with its newline.
pub open spec fn lines_of(s: Seq<char>) -> Seq<Seq<char>>
    decreases s.len(),
{
    if s.len() == 0 {
        Seq::empty()
    } else {
        match find(s, seq!['\n']) {
            Some(i) => {
                proof {
                    crate::text::lemma_find_from(s, seq!['\n'], 0);
                }
                seq![s.subrange(0, i + 1)] + lines_of(s.subrange(i + 1, s.len() as int))
            },
            None => seq![s],
        }
    }
}

/// A meaningful line of a quiz file.
pub enum FileLineView {
    /// `[id] text`: the first line of a question.
    First(Seq<char>, Seq<char>),
    /// `choice-group id`: the first line of a choice group.
    ChoiceGroup(Seq<char>),
    /// Any other text: an answer line.
    Following(Seq<char>),
    /// `- key: value`: an attribute.
    Pair(Seq<char>, Seq<char>),
    Blank,
}

/// What a single trimmed line is.
pub enum LineKind {
    Comment,
    Line(FileLineView),
    Bad(Seq<char>),
}

/// The kind of the trimmed line `t`.
pub open spec fn classify(t: Seq<char>) -> LineKind {
    if "#"@.is_prefix_of(t) {
        LineKind::Comment
    } else if t.len() == 0 {
        LineKind::Line(FileLineView::Blank)
    } else if "- "@.is_prefix_of(t) {
        match find(t, seq![':']) {
            Some(c) => LineKind::Line(
                FileLineView::Pair(trim(t.subrange(2, c)), trim(t.subrange(c + 1, t.len() as int))),
            ),
            None => LineKind::Bad("expected colon"@),
        }
    } else if "["@.is_prefix_of(t) && find(t, seq![']']) is Some {
        let b = find(t, seq![']'])->0;
        LineKind::Line(
            FileLineView::First(trim(t.subrange(1, b)), trim(t.subrange(b + 1, t.len() as int))),
        )
    } else if "choice-group"@.is_prefix_of(t) {
        let rest = trim(t.subrange(12, t.len() as int));
        if rest.len() > 0 {
            LineKind::Line(FileLineView::ChoiceGroup(rest))
        } else {
            LineKind::Bad("expected identifier"@)
        }
    } else {
        LineKind::Line(FileLineView::Following(t))
    }
}

/// A line as the reader hands it on: a meaningful line with its line number, or
/// a line that could not be read, with its line number and what was wrong.
pub enum Tok {
    Line { line: FileLineView, lineno: nat },
    Bad { lineno: nat, message: Seq<char> },
}

/// The lines that the reader hands on, from the physical line `p` on: comments
/// are skipped, and nothing follows a line that could not be read.
pub open spec fn tokens_from(lines: Seq<Seq<char>>, p: nat) -> Seq<Tok>
    decreases lines.len() - p,
{
    if p >= lines.len() {
        Seq::empty()
    } else {
        match classify(trim(lines[p as int])) {
            LineKind::Comment => tokens_from(lines, p + 1),
            LineKind::Bad(m) => seq![Tok::Bad { lineno: p + 1, message: m }],
            LineKind::Line(l) => seq![Tok::Line { line: l, lineno: p + 1 }] + tokens_from(
                lines,
                p + 1,
            ),
        }
    }
}

/// A parse error.
pub open spec fn parse_error(line: nat, whole_entry: bool, message: Seq<char>) -> QuizErrorView {
    QuizErrorView::Parse { line: line as usize, whole_entry, message }
}

/// The error for a line that could not be read.
pub open spec fn bad_line(t: Tok) -> QuizErrorView {
    match t {
        Tok::Bad { lineno, message } => parse_error(lineno, false, message),
        _ => parse_error(0, false, Seq::empty()),
    }
}

/// The value of a string of decimal digits.
pub open spec fn digits_value(d: Seq<char>) -> nat
    decreases d.len(),
{
    if d.len() == 0 {
        0
    } else {
        digits_value(d.drop_last()) * 10 + ((d.last() as u32) - 48) as nat
    }
}

/// `c` is an ASCII digit.
pub open spec fn is_digit(c: char) -> bool {
    48 <= (c as u32) <= 57
}

/// `s` without a leading `+`.
pub open spec fn unsigned_digits(s: Seq<char>) -> Seq<char> {
    if s.len() > 0 && s[0] == '+' {
        s.drop_first()
    } else {
        s
    }
}

/// The number that `u64::from_str` reads from `s`: an optional `+` and at least
/// one decimal digit, with a value that fits in 64 bits.
pub open spec fn u64_value(s: Seq<char>) -> Option<u64> {
    let d = unsigned_digits(s);
    if d.len() > 0 && (forall|i: int| 0 <= i < d.len() ==> is_digit(#[trigger] d[i]))
        && digits_value(d) <= u64::MAX {
        Some(digits_value(d) as u64)
    } else {
        None
    }
}

/// Insert `(k, v)` into a list of distinct keys, replacing the value of `k` if
/// it is there.
pub open spec fn assoc_insert<V>(m: Seq<(Seq<char>, V)>, k: Seq<char>, v: V) -> Seq<(Seq<char>, V)> {
    if exists|i: int| 0 <= i < m.len() && (#[trigger] m[i]).0 == k {
        let i = choose|i: int| 0 <= i < m.len() && (#[trigger] m[i]).0 == k;
        m.update(i, (k, v))
    } else {
        m.push((k, v))
    }
}

/// The value of `k` in a list of keys and values: that of its first occurrence.
pub open spec fn assoc_get<V>(m: Seq<(Seq<char>, V)>, k: Seq<char>) -> Option<V>
    decreases m.len(),
{
    if m.len() == 0 {
        None
    } else if m[0].0 == k {
        Some(m[0].1)
    } else {
        assoc_get(m.drop_first(), k)
    }
}

/// The keys of the list are distinct.
pub open spec fn keys_distinct<V>(m: Seq<(Seq<char>, V)>) -> bool {
    forall|i: int, j: int| 0 <= i < j < m.len() ==> (#[trigger] m[i]).0 != (#[trigger] m[j]).0
}

/// The settings at the top of a quiz file.
pub struct SettingsView {
    pub instructions: Option<Seq<char>>,
    pub timeout: Option<u64>,
}

/// The settings that the lines `rest` give, after those in `acc`, and the lines
/// that follow them. `first` says whether no line has been read yet.
pub open spec fn settings_from(rest: Seq<Tok>, first: bool, acc: SettingsView) -> Result<
    (SettingsView, Seq<Tok>),
    QuizErrorView,
>
    decreases rest.len(),
{
    if rest.len() == 0 {
        Ok((acc, rest))
    } else {
        match rest[0] {
            Tok::Bad { .. } => Err(bad_line(rest[0])),
            Tok::Line { line, lineno } => match line {
                FileLineView::Pair(key, val) => {
                    if key == "instructions"@ {
                        settings_from(
                            rest.drop_first(),
                            false,
                            SettingsView { instructions: Some(val), timeout: acc.timeout },
                        )
                    } else {
                        Err(parse_error(lineno, false, "unexpected field '"@ + key + "'"@))
                    }
                },
                FileLineView::Blank => Ok((acc, rest.drop_first())),
                _ => if first {
                    Ok((acc, rest))
                } else {
                    Err(parse_error(lineno, false, "no blank line after quiz settings"@))
                },
            },
        }
    }
}

/// The settings of a quiz file and the lines that follow them.
pub open spec fn settings(rest: Seq<Tok>) -> Result<(SettingsView, Seq<Tok>), QuizErrorView> {
    settings_from(rest, true, SettingsView { instructions: None, timeout: None })
}

/// A question as it stands in the file.
pub struct QuestionEntryView {
    pub id: Seq<char>,
    pub text: Seq<char>,
    pub following: Seq<Seq<char>>,
    pub attributes: Seq<(Seq<char>, Seq<char>)>,
    pub line: nat,
}

/// A choice group as it stands in the file.
pub struct ChoiceGroupEntryView {
    pub id: Seq<char>,
    pub choices: Seq<(Seq<char>, Seq<Seq<char>>)>,
    pub line: nat,
}

/// An entry of the file.
pub enum FileEntryView {
    Question(QuestionEntryView),
    ChoiceGroup(ChoiceGroupEntryView),
}

/// The rest of a question whose first lines made `e`, and the lines that follow.
pub open spec fn question_body(rest: Seq<Tok>, e: QuestionEntryView) -> Result<
    (QuestionEntryView, Seq<Tok>),
    QuizErrorView,
>
    decreases rest.len(),
{
    if rest.len() == 0 {
        Ok((e, rest))
    } else {
        match rest[0] {
            Tok::Bad { .. } => Err(bad_line(rest[0])),
            Tok::Line { line, lineno } => match line {
                FileLineView::Blank => Ok((e, rest.drop_first())),
                FileLineView::Following(l) => question_body(
                    rest.drop_first(),
                    QuestionEntryView { following: e.following.push(l), ..e },
                ),
                FileLineView::Pair(k, v) => question_body(
                    rest.drop_first(),
                    QuestionEntryView { attributes: assoc_insert(e.attributes, k, v), ..e },
                ),
                FileLineView::First(..) => Ok((e, rest)),
                FileLineView::ChoiceGroup(..) => Err(
                    parse_error(lineno, false, "unexpected line in question"@),
                ),
            },
        }
    }
}

/// The rest of a choice group whose first lines made `g`, and the lines that follow.
pub open spec fn group_body(rest: Seq<Tok>, g: ChoiceGroupEntryView) -> Result<
    (ChoiceGroupEntryView, Seq<Tok>),
    QuizErrorView,
>
    decreases rest.len(),
{
    if rest.len() == 0 {
        Ok((g, rest))
    } else {
        match rest[0] {
            Tok::Bad { .. } => Err(bad_line(rest[0])),
            Tok::Line { line, lineno } => match line {
                FileLineView::Blank => Ok((g, rest.drop_first())),
                FileLineView::Pair(k, v) => group_body(
                    rest.drop_first(),
                    ChoiceGroupEntryView {
                        choices: assoc_insert(g.choices, k, split_trimmed(v, "/"@)),
                        ..g
                    },
                ),
                _ => Err(parse_error(lineno, false, "unexpected line in choice group"@)),
            },
        }
    }
}

/// The next entry of the file, after any blank lines, and the lines that follow
/// it; `None` at the end of the file.
pub open spec fn next_entry(rest: Seq<Tok>) -> Result<Option<(FileEntryView, Seq<Tok>)>, QuizErrorView>
    decreases rest.len(),
{
    if rest.len() == 0 {
        Ok(None)
    } else {
        match rest[0] {
            Tok::Bad { .. } => Err(bad_line(rest[0])),
            Tok::Line { line, lineno } => match line {
                FileLineView::First(id, text) => match question_body(
                    rest.drop_first(),
                    QuestionEntryView {
                        id,
                        text,
                        following: Seq::empty(),
                        attributes: Seq::empty(),
                        line: lineno,
                    },
                ) {
                    Ok((e, r)) => Ok(Some((FileEntryView::Question(e), r))),
                    Err(x) => Err(x),
                },
                FileLineView::ChoiceGroup(id) => match group_body(
                    rest.drop_first(),
                    ChoiceGroupEntryView { id, choices: Seq::empty(), line: lineno },
                ) {
                    Ok((g, r)) => Ok(Some((FileEntryView::ChoiceGroup(g), r))),
                    Err(x) => Err(x),
                },
                FileLineView::Blank => next_entry(rest.drop_first()),
                _ => Err(parse_error(lineno, false, "expected first line of question"@)),
            },
        }
    }
}

/// The lines that follow a question body are a suffix of the lines it began with.
pub proof fn lemma_question_body_shrinks(rest: Seq<Tok>, e: QuestionEntryView)
    ensures
        question_body(rest, e) matches Ok((_, r)) ==> r.len() <= rest.len(),
    decreases rest.len(),
{
    if rest.len() > 0 {
        match rest[0] {
            Tok::Line { line, .. } => match line {
                FileLineView::Following(l) => lemma_question_body_shrinks(
                    rest.drop_first(),
                    QuestionEntryView { following: e.following.push(l), ..e },
                ),
                FileLineView::Pair(k, v) => lemma_question_body_shrinks(
                    rest.drop_first(),
                    QuestionEntryView { attributes: assoc_insert(e.attributes, k, v), ..e },
                ),
                _ => {},
            },
            _ => {},
        }
    }
}

/// The lines that follow a choice group are a suffix of the lines it began with.
pub proof fn lemma_group_body_shrinks(rest: Seq<Tok>, g: ChoiceGroupEntryView)
    ensures
        group_body(rest, g) matches Ok((_, r)) ==> r.len() <= rest.len(),
    decreases rest.len(),
{
    if rest.len() > 0 {
        match rest[0] {
            Tok::Line { line, .. } => match line {
                FileLineView::Pair(k, v) => lemma_group_body_shrinks(
                    rest.drop_first(),
                    ChoiceGroupEntryView {
                        choices: assoc_insert(g.choices, k, split_trimmed(v, "/"@)),
                        ..g
                    },
                ),
                _ => {},
            },
            _ => {},
        }
    }
}

/// Reading an entry consumes at least one line.
pub proof fn lemma_next_entry_shrinks(rest: Seq<Tok>)
    ensures
        next_entry(rest) matches Ok(Some((_, r))) ==> r.len() < rest.len(),
    decreases rest.len(),
{
    if rest.len() > 0 {
        match rest[0] {
            Tok::Line { line, lineno } => match line {
                FileLineView::First(id, text) => lemma_question_body_shrinks(
                    rest.drop_first(),
                    QuestionEntryView {
                        id,
                        text,
                        following: Seq::empty(),
                        attributes: Seq::empty(),
                        line: lineno,
                    },
                ),
                FileLineView::ChoiceGroup(id) => lemma_group_body_shrinks(
                    rest.drop_first(),
                    ChoiceGroupEntryView { id, choices: Seq::empty(), line: lineno },
                ),
                FileLineView::Blank => lemma_next_entry_shrinks(rest.drop_first()),
                _ => {},
            },
            _ => {},
        }
    }
}

/// The first attribute whose key is not among `allowed`.
pub open spec fn first_unexpected(attrs: Seq<(Seq<char>, Seq<char>)>, allowed: Seq<Seq<char>>) -> Option<
    Seq<char>,
>
    decreases attrs.len(),
{
    if attrs.len() == 0 {
        None
    } else if !allowed.contains(attrs[0].0) {
        Some(attrs[0].0)
    } else {
        first_unexpected(attrs.drop_first(), allowed)
    }
}

/// The error for attributes that a kind of question does not take, if there is one.
pub open spec fn fields_error(attrs: Seq<(Seq<char>, Seq<char>)>, allowed: Seq<Seq<char>>, line: nat) -> Option<
    QuizErrorView,
> {
    match first_unexpected(attrs, allowed) {
        Some(k) => Some(parse_error(line, true, "unexpected field '"@ + k + "'"@)),
        None => None,
    }
}

/// A line without its context: the text before `[`, and the text between `[`
/// and the next `]`, both trimmed.
pub open spec fn context_of(l: Seq<char>, lineno: nat) -> Result<(Seq<char>, Option<Seq<char>>), QuizErrorView> {
    match find(l, seq!['[']) {
        Some(open) => match find(l.subrange(open, l.len() as int), seq![']']) {
            Some(c) => Ok(
                (trim(l.subrange(0, open)), Some(trim(l.subrange(open + 1, c + open)))),
            ),
            None => Err(parse_error(lineno, false, "expected ]"@)),
        },
        None => Ok((l, None)),
    }
}

/// The choices of a choice-group question: every variant of every answer of the
/// group except the one that is correct, in the order of the group.
pub open spec fn other_choices(group: Seq<(Seq<char>, Seq<Seq<char>>)>, code: Seq<char>) -> Seq<Seq<char>>
    decreases group.len(),
{
    if group.len() == 0 {
        Seq::empty()
    } else {
        let rest = other_choices(group.drop_first(), code);
        if group[0].0 == code {
            rest
        } else {
            group[0].1 + rest
        }
    }
}

/// The results stored for a quiz: per question ID, the results in the order they
/// were recorded.
pub type StoredResultsView = Seq<(Seq<char>, Seq<QuestionResultView>)>;

/// The timeout attribute of a question, read as a number.
pub open spec fn timeout_of(attrs: Seq<(Seq<char>, Seq<char>)>, line: nat) -> Result<Option<u64>, QuizErrorView> {
    match assoc_get(attrs, "timeout"@) {
        Some(v) => match u64_value(v) {
            Some(t) => Ok(Some(t)),
            None => Err(parse_error(line, true, "could not parse integer"@)),
        },
        None => Ok(None),
    }
}

/// The attributes that short-answer and multiple-choice questions take.
pub open spec fn short_fields() -> Seq<Seq<char>> {
    seq!["choices"@, "tags"@]
}

/// The attributes that flashcards take.
pub open spec fn flashcard_fields() -> Seq<Seq<char>> {
    seq!["tags"@]
}

/// The attributes that list questions take.
pub open spec fn list_fields() -> Seq<Seq<char>> {
    seq!["nocredit"@, "ordered"@, "tags"@]
}

/// The question that the entry `e` defines, given the choice groups defined
/// before it and the stored results.
pub open spec fn entry_question(
    e: QuestionEntryView,
    groups: Seq<(Seq<char>, Seq<(Seq<char>, Seq<Seq<char>>)>)>,
    old: StoredResultsView,
    path: Seq<char>,
) -> Result<QuestionView, QuizErrorView> {
    let line = e.line;
    let tags = match assoc_get(e.attributes, "tags"@) {
        Some(v) => split_trimmed(v, ","@),
        None => Seq::empty(),
    };
    let prior = match assoc_get(old, e.id) {
        Some(rs) => rs,
        None => Seq::empty(),
    };
    let common = |timeout: Option<u64>|
        QuestionCommonView {
            id: e.id,
            prior_results: prior,
            tags,
            location: LocationView { line: line as usize, path },
            timeout,
        };
    if e.following.len() == 1 {
        match fields_error(e.attributes, short_fields(), line) {
            Some(x) => Err(x),
            None => {
                let answer = split_trimmed(e.following[0], "/"@);
                match assoc_get(e.attributes, "choices"@) {
                    Some(c) => Ok(
                        QuestionView::MultipleChoice {
                            text: e.text,
                            answer,
                            choices: split_trimmed(c, "/"@),
                            common: common(None),
                        },
                    ),
                    None => Ok(QuestionView::ShortAnswer { text: e.text, answer, common: common(None) }),
                }
            },
        }
    } else if e.following.len() == 0 {
        if find(e.text, seq!['=']) is Some {
            let eq = find(e.text, seq!['='])->0;
            match fields_error(e.attributes, flashcard_fields(), line) {
                Some(x) => Err(x),
                None => match context_of(trim(e.text.subrange(0, eq)), line) {
                    Err(x) => Err(x),
                    Ok((front, front_context)) => match context_of(
                        e.text.subrange(eq + 1, e.text.len() as int),
                        line,
                    ) {
                        Err(x) => Err(x),
                        Ok((back, back_context)) => Ok(
                            QuestionView::Flashcard {
                                front: split_trimmed(front, "/"@),
                                back: split_trimmed(back, "/"@),
                                front_context,
                                back_context,
                                common: common(None),
                            },
                        ),
                    },
                },
            }
        } else if assoc_get(e.attributes, "choice-group"@) is Some {
            let name = assoc_get(e.attributes, "choice-group"@)->0;
            match assoc_get(e.attributes, "choice-group-answer"@) {
                None => Err(
                    parse_error(
                        line,
                        true,
                        "question has choice-group but not choice-group-answer"@,
                    ),
                ),
                Some(code) => match assoc_get(groups, name) {
                    None => Err(parse_error(line, true, "choice group does not exist"@)),
                    Some(group) => match assoc_get(group, code) {
                        None => Err(parse_error(line, true, "choice group answer does not exist"@)),
                        Some(answer) => Ok(
                            QuestionView::MultipleChoice {
                                text: e.text,
                                answer,
                                choices: other_choices(group, code),
                                common: common(None),
                            },
                        ),
                    },
                },
            }
        } else {
            Err(parse_error(line, true, "question has no answer"@))
        }
    } else {
        match fields_error(e.attributes, list_fields(), line) {
            Some(x) => Err(x),
            None => {
                let ordered = assoc_get(e.attributes, "ordered"@);
                if ordered matches Some(o) && o != "true"@ && o != "false"@ {
                    Err(parse_error(line, true, "ordered field must be either 'true' or 'false'"@))
                } else {
                    let no_credit = match assoc_get(e.attributes, "nocredit"@) {
                        Some(v) => split_trimmed(v, "/"@),
                        None => Seq::empty(),
                    };
                    let answer_list = e.following.map_values(|l: Seq<char>| split_trimmed(l, "/"@));
                    if ordered == Some("true"@) {
                        Ok(
                            QuestionView::OrderedList {
                                text: e.text,
                                answer_list,
                                no_credit,
                                common: common(None),
                            },
                        )
                    } else {
                        Ok(
                            QuestionView::List {
                                text: e.text,
                                answer_list,
                                no_credit,
                                common: common(None),
                            },
                        )
                    }
                }
            },
        }
    }
}

/// What has been built from the entries read so far.
pub struct BuildView {
    pub questions: Seq<QuestionView>,
    pub used_ids: Seq<Seq<char>>,
    pub groups: Seq<(Seq<char>, Seq<(Seq<char>, Seq<Seq<char>>)>)>,
}

/// The questions of the entries `rest`, after those already built into `b`.
pub open spec fn entries_from(rest: Seq<Tok>, b: BuildView, old: StoredResultsView, path: Seq<char>) -> Result<
    Seq<QuestionView>,
    QuizErrorView,
>
    decreases rest.len(),
{
    match next_entry(rest) {
        Err(x) => Err(x),
        Ok(None) => Ok(b.questions),
        Ok(Some((entry, r))) => {
            proof {
                lemma_next_entry_shrinks(rest);
            }
            match entry {
                FileEntryView::Question(e) => match entry_question(e, b.groups, old, path) {
                    Err(x) => Err(x),
                    Ok(q) => {
                        let id = crate::quiz::common_of(q).id;
                        if b.used_ids.contains(id) {
                            Err(parse_error(e.line, false, "duplicate question ID"@))
                        } else {
                            entries_from(
                                r,
                                BuildView {
                                    questions: b.questions.push(q),
                                    used_ids: b.used_ids.push(id),
                                    groups: b.groups,
                                },
                                old,
                                path,
                            )
                        }
                    },
                },
                FileEntryView::ChoiceGroup(g) => {
                    if assoc_get(b.groups, g.id) is Some {
                        Err(parse_error(g.line, false, "duplicate choice group ID"@))
                    } else {
                        entries_from(
                            r,
                            BuildView {
                                questions: b.questions,
                                used_ids: b.used_ids,
                                groups: b.groups.push((g.id, g.choices)),
                            },
                            old,
                            path,
                        )
                    }
                },
            }
        },
    }
}

/// A question that takes the quiz-wide timeout, if it has none of its own and is
/// not a list question.
pub open spec fn with_global_timeout(q: QuestionView, timeout: Option<u64>) -> QuestionView {
    match timeout {
        None => q,
        Some(t) => match q {
            QuestionView::ShortAnswer { text, answer, common } => if common.timeout is None {
                QuestionView::ShortAnswer {
                    text,
                    answer,
                    common: QuestionCommonView { timeout: Some(t), ..common },
                }
            } else {
                q
            },
            QuestionView::Flashcard { front, back, front_context, back_context, common } =>
                if common.timeout is None {
                QuestionView::Flashcard {
                    front,
                    back,
                    front_context,
                    back_context,
                    common: QuestionCommonView { timeout: Some(t), ..common },
                }
            } else {
                q
            },
            QuestionView::MultipleChoice { text, answer, choices, common } =>
                if common.timeout is None {
                QuestionView::MultipleChoice {
                    text,
                    answer,
                    choices,
                    common: QuestionCommonView { timeout: Some(t), ..common },
                }
            } else {
                q
            },
            _ => q,
        },
    }
}

/// The quiz that the text `text` of the file at `path` holds, with the stored
/// results `old` attached to its questions; or the error that stops reading it.
pub open spec fn quiz_of(text: Seq<char>, path: Seq<char>, old: StoredResultsView) -> Result<
    QuizView,
    QuizErrorView,
> {
    match settings(tokens_from(lines_of(text), 0)) {
        Err(x) => Err(x),
        Ok((s, rest)) => match entries_from(rest, empty_build(), old, path) {
            Err(x) => Err(x),
            Ok(qs) => Ok(QuizView { instructions: s.instructions, questions: qs }),
        },
    }
}

/// Nothing built yet.
pub open spec fn empty_build() -> BuildView {
    BuildView { questions: Seq::empty(), used_ids: Seq::empty(), groups: Seq::empty() }
}

/// How `quiz_of` combines the settings and the entries.
pub proof fn lemma_quiz_of(text: Seq<char>, path: Seq<char>, old: StoredResultsView, s: SettingsView, rest: Seq<Tok>)
    requires
        settings(tokens_from(lines_of(text), 0)) == Ok::<(SettingsView, Seq<Tok>), QuizErrorView>((s, rest)),
    ensures
        entries_from(rest, empty_build(), old, path) matches Err(e) ==> quiz_of(text, path, old) == Err::<QuizView, QuizErrorView>(e),
        entries_from(rest, empty_build(), old, path) matches Ok(qs) ==> quiz_of(text, path, old) == Ok::<QuizView, QuizErrorView>(QuizView {
            instructions: s.instructions,
            questions: qs,
        }),
{
}

} // verus!
