//! Definitions shared by several modules: the error type, source locations and
//! the command-line configuration.
use vstd::prelude::*;

use crate::text::{chars_of, string_of};

verus! {

/// Where a question was defined: a line of a quiz file.
#[derive(Debug)]
pub struct Location {
    pub line: usize,
    pub path: String,
}

/// The mathematical value of a `Location`.
pub struct LocationView {
    pub line: usize,
    pub path: Seq<char>,
}

impl View for Location {
    type V = LocationView;

    open spec fn view(&self) -> LocationView {
        LocationView { line: self.line, path: self.path@ }
    }
}

impl DeepView for Location {
    type V = LocationView;

    open spec fn deep_view(&self) -> LocationView {
        self@
    }
}

impl Location {
    /// A copy of this location.
    pub fn duplicate(&self) -> (r: Location)
        ensures
            r@ == self@,
    {
        Location { line: self.line, path: self.path.clone() }
    }
}

/// Everything that can go wrong while loading or taking a quiz, together with
/// the two signals that the user sends while answering.
#[derive(Debug)]
pub enum QuizError {
    /// For when the user requests a quiz that does not exist.
    QuizNotFound(String),
    /// For JSON errors; holds the JSON library's description of the error.
    Json(String),
    CannotWriteToFile(String),
    /// For I/O errors; holds the description of the error.
    Io(String),
    ReadlineInterrupted,
    EmptyQuiz,
    Parse { line: usize, whole_entry: bool, message: String },
    CannotOpenEditor,
    /// Not really an error, but a signal sent when the user wants to mark their
    /// previous answer as correct.
    SignalMarkCorrect,
    /// A signal sent when the user wants to edit the previous question.
    SignalEdit,
}

/// The mathematical value of a `QuizError`.
pub enum QuizErrorView {
    QuizNotFound(Seq<char>),
    Json(Seq<char>),
    CannotWriteToFile(Seq<char>),
    Io(Seq<char>),
    ReadlineInterrupted,
    EmptyQuiz,
    Parse { line: usize, whole_entry: bool, message: Seq<char> },
    CannotOpenEditor,
    SignalMarkCorrect,
    SignalEdit,
}

impl View for QuizError {
    type V = QuizErrorView;

    open spec fn view(&self) -> QuizErrorView {
        match self {
            QuizError::QuizNotFound(p) => QuizErrorView::QuizNotFound(p@),
            QuizError::Json(e) => QuizErrorView::Json(e@),
            QuizError::CannotWriteToFile(p) => QuizErrorView::CannotWriteToFile(p@),
            QuizError::Io(e) => QuizErrorView::Io(e@),
            QuizError::ReadlineInterrupted => QuizErrorView::ReadlineInterrupted,
            QuizError::EmptyQuiz => QuizErrorView::EmptyQuiz,
            QuizError::Parse { line, whole_entry, message } => QuizErrorView::Parse {
                line: *line,
                whole_entry: *whole_entry,
                message: message@,
            },
            QuizError::CannotOpenEditor => QuizErrorView::CannotOpenEditor,
            QuizError::SignalMarkCorrect => QuizErrorView::SignalMarkCorrect,
            QuizError::SignalEdit => QuizErrorView::SignalEdit,
        }
    }
}

/// The decimal digit for `d < 10`.
pub open spec fn digit_char(d: nat) -> char {
    ((48 + d) as u32) as char
}

/// The decimal representation of `n`, without leading zeros.
pub open spec fn decimal(n: nat) -> Seq<char>
    decreases n,
{
    if n < 10 {
        seq![digit_char(n)]
    } else {
        decimal(n / 10).push(digit_char(n % 10))
    }
}

/// Where a parse error was found, as the error message puts it.
pub open spec fn location_phrase(line: usize, whole_entry: bool) -> Seq<char> {
    if whole_entry {
        "in entry beginning on line "@ + decimal(line as nat)
    } else {
        "on line "@ + decimal(line as nat)
    }
}

/// The text that describes an error to the user.
pub open spec fn error_message(e: QuizErrorView) -> Seq<char> {
    match e {
        QuizErrorView::QuizNotFound(p) => "could not find quiz named '"@ + p + "'"@,
        QuizErrorView::Json(m) => "could not parse JSON ("@ + m + ")"@,
        QuizErrorView::CannotWriteToFile(p) => "could not write to file '"@ + p + "'"@,
        QuizErrorView::Io(m) => "IO error ("@ + m + ")"@,
        QuizErrorView::EmptyQuiz => "no questions found"@,
        QuizErrorView::ReadlineInterrupted => Seq::<char>::empty(),
        QuizErrorView::Parse { line, whole_entry, message } => message + " "@ + location_phrase(
            line,
            whole_entry,
        ),
        QuizErrorView::CannotOpenEditor => "unable to open text editor"@,
        QuizErrorView::SignalMarkCorrect => "internal error ('SignalMarkCorrect')"@,
        QuizErrorView::SignalEdit => "internal error ('SignalEdit')"@,
    }
}

/// The decimal digits of `n`.
pub fn decimal_string(n: usize) -> (s: String)
    ensures
        s@ == decimal(n as nat),
{
    let mut digits: Vec<char> = Vec::new();
    let mut m = n;
    // digits holds the last digits of n, least significant first.
    loop
        invariant_except_break
            decimal(n as nat) == decimal(m as nat) + digits@.reverse(),
            m <= n,
        ensures
            decimal(n as nat) == digits@.reverse(),
        decreases m,
    {
        let d = m % 10;
        let c = (48u8 + (d as u8)) as char;
        assert(c == digit_char(d as nat));
        if m < 10 {
            let ghost old_digits = digits@;
            digits.push(c);
            assert(digits@.reverse() =~= seq![c] + old_digits.reverse());
            assert(decimal(m as nat) == seq![c]);
            assert(decimal(n as nat) =~= digits@.reverse());
            break;
        }
        let ghost old_digits = digits@;
        let ghost old_m = m;
        digits.push(c);
        m = m / 10;
        proof {
            assert(digits@.reverse() =~= seq![c] + old_digits.reverse());
            assert(decimal(old_m as nat) == decimal(m as nat).push(c));
            assert(decimal(n as nat) =~= decimal(m as nat) + digits@.reverse());
        }
    }
    let mut reversed: Vec<char> = Vec::new();
    let mut i = digits.len();
    while i > 0
        invariant
            i <= digits.len(),
            reversed@ == digits@.reverse().subrange(0, (digits.len() - i) as int),
            decimal(n as nat) == digits@.reverse(),
        decreases i,
    {
        i -= 1;
        reversed.push(digits[i]);
        assert(reversed@ =~= digits@.reverse().subrange(0, (digits.len() - i) as int));
    }
    assert(reversed@ =~= digits@.reverse());
    string_of(&reversed, 0, reversed.len())
}

/// `a` followed by `b`.
pub fn concat(a: &str, b: &str) -> (r: String)
    ensures
        r@ == a@ + b@,
{
    let va = chars_of(a);
    let vb = chars_of(b);
    let mut all = va;
    let mut i: usize = 0;
    let ghost start = all@;
    while i < vb.len()
        invariant
            0 <= i <= vb.len(),
            all@ == start + vb@.subrange(0, i as int),
            start == a@,
        decreases vb.len() - i,
    {
        all.push(vb[i]);
        i += 1;
        assert(all@ =~= start + vb@.subrange(0, i as int));
    }
    assert(vb@.subrange(0, vb.len() as int) =~= vb@);
    string_of(&all, 0, all.len())
}

impl QuizError {
    /// The text that describes this error to the user.
    pub fn message(&self) -> (s: String)
        ensures
            s@ == error_message(self@),
    {
        match self {
            QuizError::QuizNotFound(p) => {
                let a = concat("could not find quiz named '", p.as_str());
                let r = concat(a.as_str(), "'");
                assert(r@ =~= "could not find quiz named '"@ + p@ + "'"@);
                r
            },
            QuizError::Json(m) => {
                let a = concat("could not parse JSON (", m.as_str());
                concat(a.as_str(), ")")
            },
            QuizError::CannotWriteToFile(p) => {
                let a = concat("could not write to file '", p.as_str());
                concat(a.as_str(), "'")
            },
            QuizError::Io(m) => {
                let a = concat("IO error (", m.as_str());
                concat(a.as_str(), ")")
            },
            QuizError::EmptyQuiz => String::from_str("no questions found"),
            QuizError::ReadlineInterrupted => String::new(),
            QuizError::Parse { line, whole_entry, message } => {
                let n = decimal_string(*line);
                let loc = if *whole_entry {
                    concat("in entry beginning on line ", n.as_str())
                } else {
                    concat("on line ", n.as_str())
                };
                let a = concat(message.as_str(), " ");
                let r = concat(a.as_str(), loc.as_str());
                assert(r@ =~= message@ + " "@ + location_phrase(*line, *whole_entry));
                r
            },
            QuizError::CannotOpenEditor => String::from_str("unable to open text editor"),
            QuizError::SignalMarkCorrect => String::from_str("internal error ('SignalMarkCorrect')"),
            QuizError::SignalEdit => String::from_str("internal error ('SignalEdit')"),
        }
    }
}

/// These filtering options are shared between the `take` and `search` subcommands.
pub struct FilterOptions {
    pub exclude: Vec<String>,
    pub tags: Vec<String>,
}

/// Options of the `history` subcommand.
pub struct HistoryOptions {
    pub name: String,
    pub id: String,
}

/// Options of the `results` subcommand.
pub struct ResultsOptions {
    pub name: String,
    pub num_to_show: Option<usize>,
    pub sort: String,
}

/// Options of the `search` subcommand.
pub struct SearchOptions {
    pub name: String,
    pub term: String,
    pub filter_opts: FilterOptions,
}

/// Options of the `take` subcommand.
pub struct TakeOptions {
    /// Name of the quiz to take.
    pub name: String,
    pub flip: bool,
    pub in_order: bool,
    pub no_save: bool,
    pub num_to_ask: usize,
    pub random: bool,
    pub filter_opts: FilterOptions,
}

/// The subcommand to run, with its options.
pub enum Command {
    History(HistoryOptions),
    Results(ResultsOptions),
    Search(SearchOptions),
    Take(TakeOptions),
}

/// Holds the command-line configuration for the application.
pub struct Options {
    /// Do not emit colorized output.
    pub no_color: bool,
    pub cmd: Command,
}

/// Whether the string `s` is one of `v`.
pub fn contains_string(v: &Vec<String>, s: &str) -> (r: bool)
    ensures
        r == v.deep_view().contains(s@),
{
    let mut i: usize = 0;
    while i < v.len()
        invariant
            0 <= i <= v.len(),
            forall|k: int| 0 <= k < i ==> v.deep_view()[k] != s@,
        decreases v.len() - i,
    {
        if crate::text::str_eq(v[i].as_str(), s) {
            assert(v.deep_view()[i as int] == s@);
            return true;
        }
        i += 1;
    }
    proof {
        if v.deep_view().contains(s@) {
            let k = choose|k: int| 0 <= k < v.deep_view().len() && v.deep_view()[k] == s@;
            assert(v.deep_view()[k] != s@);
        }
    }
    false
}

/// Whether a question with `tags` passes the tag constraints: either no tags
/// were asked for or the question has at least one of them, and it has none of
/// the excluded tags.
pub open spec fn tags_pass(tags: Seq<Seq<char>>, wanted: Seq<Seq<char>>, excluded: Seq<Seq<char>>) -> bool {
    &&& (wanted.len() == 0 || exists|i: int| 0 <= i < wanted.len() && tags.contains(#[trigger] wanted[i]))
    &&& forall|i: int| 0 <= i < excluded.len() ==> !tags.contains(#[trigger] excluded[i])
}

/// Return `true` if `tags` satisfies the constraints in `options`.
pub fn filter_tags(tags: &Vec<String>, options: &FilterOptions) -> (r: bool)
    ensures
        r == tags_pass(tags.deep_view(), options.tags.deep_view(), options.exclude.deep_view()),
{
    let mut any = options.tags.len() == 0;
    let mut i: usize = 0;
    while i < options.tags.len() && !any
        invariant
            0 <= i <= options.tags.len(),
            any ==> (options.tags.len() == 0 || exists|k: int|
                0 <= k < options.tags.deep_view().len() && tags.deep_view().contains(
                    #[trigger] options.tags.deep_view()[k],
                )),
            !any ==> options.tags.len() > 0 && forall|k: int|
                0 <= k < i ==> !tags.deep_view().contains(#[trigger] options.tags.deep_view()[k]),
        decreases options.tags.len() - i,
    {
        if contains_string(tags, options.tags[i].as_str()) {
            any = true;
            assert(tags.deep_view().contains(options.tags.deep_view()[i as int]));
        }
        i += 1;
    }
    if !any {
        return false;
    }
    let mut j: usize = 0;
    while j < options.exclude.len()
        invariant
            0 <= j <= options.exclude.len(),
            forall|k: int|
                0 <= k < j ==> !tags.deep_view().contains(#[trigger] options.exclude.deep_view()[k]),
        decreases options.exclude.len() - j,
    {
        if contains_string(tags, options.exclude[j].as_str()) {
            assert(tags.deep_view().contains(options.exclude.deep_view()[j as int]));
            return false;
        }
        j += 1;
    }
    true
}

} // verus!
