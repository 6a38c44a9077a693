//! Reading the command line: which subcommand to run, and with what options.
//! An error is the message to show before exiting.
use vstd::prelude::*;

use crate::common::{concat, Command, FilterOptions, Options, ResultsOptions, TakeOptions};
use crate::format::{digits_value, is_digit, unsigned_digits};
use crate::persistence::lemma_digits_monotone;
use crate::results::{sort_order, sort_order_of};
use crate::text::{chars_of, str_eq};

verus! {

/// The number of questions asked when `-n` is not given.
pub const DEFAULT_NUM_TO_ASK: usize = 20;

/// The number that `usize::from_str_radix(s, 10)` reads from `s`: an optional
/// `+` and at least one decimal digit, with a value that fits in a `usize`.
pub open spec fn usize_value(s: Seq<char>) -> Option<usize> {
    let d = unsigned_digits(s);
    if d.len() > 0 && (forall|i: int| 0 <= i < d.len() ==> is_digit(#[trigger] d[i]))
        && digits_value(d) <= usize::MAX {
        Some(digits_value(d) as usize)
    } else {
        None
    }
}

/// Read `s` as a count, as `usize::from_str_radix(s, 10)` does.
pub fn parse_count(s: &str) -> (r: Option<usize>)
    ensures
        r == usize_value(s@),
{
    let v = chars_of(s);
    let start: usize = if v.len() > 0 && v[0] == '+' {
        1
    } else {
        0
    };
    let ghost d = unsigned_digits(s@);
    assert(d =~= v@.subrange(start as int, v.len() as int));
    if start == v.len() {
        return None;
    }
    let mut value: usize = 0;
    let mut i = start;
    while i < v.len()
        invariant
            start <= i <= v.len(),
            d == v@.subrange(start as int, v.len() as int),
            v@ == s@,
            d == unsigned_digits(s@),
            forall|k: int| start <= k < i ==> is_digit(#[trigger] v@[k]),
            value == digits_value(v@.subrange(start as int, i as int)),
        decreases v.len() - i,
    {
        let c = v[i];
        let n = c as u32;
        if !(48 <= n && n <= 57) {
            proof {
                assert(d[i - start] == c);
                assert(!is_digit(d[i - start]));
            }
            return None;
        }
        let digit = (n - 48) as usize;
        proof {
            let p = v@.subrange(start as int, i + 1);
            assert(p.drop_last() =~= v@.subrange(start as int, i as int));
            assert(p.last() == c);
        }
        if value > (usize::MAX - digit) / 10 {
            proof {
                assert(digits_value(v@.subrange(start as int, i + 1)) > usize::MAX);
                if forall|k: int| 0 <= k < d.len() ==> is_digit(#[trigger] d[k]) {
                    lemma_digits_monotone(d, i + 1 - start);
                    assert(d.subrange(0, i + 1 - start) =~= v@.subrange(start as int, i + 1));
                }
            }
            return None;
        }
        value = value * 10 + digit;
        i += 1;
    }
    proof {
        assert forall|k: int| 0 <= k < d.len() implies is_digit(#[trigger] d[k]) by {
            assert(d[k] == v@[k + start]);
        }
        assert(v@.subrange(start as int, v.len() as int) == d);
    }
    Some(value)
}

/// The options of the `take` subcommand read so far.
pub struct TakeState {
    pub name: Option<Seq<char>>,
    pub flip: bool,
    pub in_order: bool,
    pub no_save: bool,
    pub num_to_ask: usize,
    pub tags: Seq<Seq<char>>,
    pub exclude: Seq<Seq<char>>,
}

/// The `take` options before any argument is read.
pub open spec fn initial_take() -> TakeState {
    TakeState {
        name: None,
        flip: false,
        in_order: false,
        no_save: false,
        num_to_ask: DEFAULT_NUM_TO_ASK,
        tags: Seq::empty(),
        exclude: Seq::empty(),
    }
}

/// The error for the option at `i` when no argument follows it: it is the last
/// word, or the next word is itself an option.
pub open spec fn missing_argument(args: Seq<Seq<char>>, i: int) -> Option<Seq<char>> {
    if i == args.len() - 1 || "-"@.is_prefix_of(args[i + 1]) {
        Some("Option "@ + args[i] + " expected an argument."@)
    } else {
        None
    }
}

/// The message for a word that looks like an option the subcommand does not take.
pub open spec fn unexpected_option(a: Seq<char>) -> Seq<char> {
    "Unexpected option "@ + a + "."@
}

/// The message for a second positional argument.
pub open spec fn unexpected_positional(a: Seq<char>) -> Seq<char> {
    "Unexpected positional argument '"@ + a + "'."@
}

/// The `take` options that the words `args` from position `i` on give, after `st`.
pub open spec fn take_from(args: Seq<Seq<char>>, i: int, st: TakeState) -> Result<TakeState, Seq<char>>
    decreases args.len() - i,
{
    if i < 0 || i >= args.len() {
        Ok(st)
    } else {
        let a = args[i];
        if a == "--flip"@ {
            take_from(args, i + 1, TakeState { flip: true, ..st })
        } else if a == "--in-order"@ {
            take_from(args, i + 1, TakeState { in_order: true, ..st })
        } else if a == "--no-save"@ {
            take_from(args, i + 1, TakeState { no_save: true, ..st })
        } else if a == "-n"@ || a == "--tag"@ || a == "--exclude"@ {
            match missing_argument(args, i) {
                Some(e) => Err(e),
                None => if a == "-n"@ {
                    match usize_value(args[i + 1]) {
                        Some(n) => take_from(args, i + 2, TakeState { num_to_ask: n, ..st }),
                        None => Err("Expected integer argument to -n."@),
                    }
                } else if a == "--tag"@ {
                    take_from(args, i + 2, TakeState { tags: st.tags.push(args[i + 1]), ..st })
                } else {
                    take_from(args, i + 2, TakeState { exclude: st.exclude.push(args[i + 1]), ..st })
                },
            }
        } else if "-"@.is_prefix_of(a) {
            Err(unexpected_option(a))
        } else if st.name is Some {
            Err(unexpected_positional(a))
        } else {
            take_from(args, i + 1, TakeState { name: Some(a), ..st })
        }
    }
}

/// The options that `st` gives, with the quiz named `main` when no name was given.
pub open spec fn take_options_match(o: TakeOptions, st: TakeState) -> bool {
    &&& o.name@ == match st.name {
        Some(n) => n,
        None => "main"@,
    }
    &&& o.flip == st.flip
    &&& o.in_order == st.in_order
    &&& o.no_save == st.no_save
    &&& o.num_to_ask == st.num_to_ask
    &&& !o.random
    &&& o.filter_opts.tags.deep_view() == st.tags
    &&& o.filter_opts.exclude.deep_view() == st.exclude
}

/// Where the `take` options begin: after the word `--take`, if it is first.
pub open spec fn take_start(args: Seq<Seq<char>>) -> int {
    if args.len() > 0 && args[0] == "--take"@ {
        1
    } else {
        0
    }
}

/// The error for the option at `i` when no argument follows it.
pub fn cmd_assert_next(args: &Vec<String>, i: usize) -> (r: Result<(), String>)
    requires
        i < args.len(),
    ensures
        missing_argument(args.deep_view(), i as int) matches Some(e) ==> (r matches Err(m) && m@ == e),
        missing_argument(args.deep_view(), i as int) is None ==> r is Ok,
{
    if i == args.len() - 1 || starts_with_dash(args[i + 1].as_str()) {
        let a = concat("Option ", args[i].as_str());
        Err(concat(a.as_str(), " expected an argument."))
    } else {
        Ok(())
    }
}

/// Whether `s` begins with `-`.
pub fn starts_with_dash(s: &str) -> (r: bool)
    ensures
        r == "-"@.is_prefix_of(s@),
{
    let v = chars_of(s);
    proof {
        reveal_strlit("-");
        assert("-"@ =~= seq!['-']);
        if v.len() > 0 {
            assert(v@.subrange(0, 1) =~= seq![v@[0]]);
        }
    }
    let r = v.len() > 0 && v[0] == '-';
    proof {
        if r {
            assert(s@.subrange(0, 1) =~= "-"@);
        } else if v.len() > 0 {
            assert(s@.subrange(0, 1)[0] != "-"@[0]);
        }
    }
    r
}

/// Read the options of the `take` subcommand from `args`.
pub fn parse_take_options(args: &Vec<String>) -> (r: Result<TakeOptions, String>)
    ensures
        take_from(args.deep_view(), take_start(args.deep_view()), initial_take()) matches Ok(st)
            ==> (r matches Ok(o) && take_options_match(o, st)),
        take_from(args.deep_view(), take_start(args.deep_view()), initial_take()) matches Err(e)
            ==> (r matches Err(m) && m@ == e),
{
    let ghost words = args.deep_view();
    let mut name: Option<String> = None;
    let mut flip = false;
    let mut in_order = false;
    let mut no_save = false;
    let mut num_to_ask: usize = DEFAULT_NUM_TO_ASK;
    let mut exclude: Vec<String> = Vec::new();
    let mut tags: Vec<String> = Vec::new();
    let mut i: usize = if args.len() > 0 && str_eq(args[0].as_str(), "--take") {
        1
    } else {
        0
    };
    assert(i == take_start(words));
    assert(tags.deep_view() =~= Seq::<Seq<char>>::empty());
    assert(exclude.deep_view() =~= Seq::<Seq<char>>::empty());
    while i < args.len()
        invariant
            0 <= i <= args.len(),
            words == args.deep_view(),
            take_from(words, take_start(words), initial_take()) == take_from(
                words,
                i as int,
                TakeState {
                    name: name.deep_view(),
                    flip,
                    in_order,
                    no_save,
                    num_to_ask,
                    tags: tags.deep_view(),
                    exclude: exclude.deep_view(),
                },
            ),
        decreases args.len() - i,
    {
        let a = args[i].as_str();
        let ghost st = TakeState {
            name: name.deep_view(),
            flip,
            in_order,
            no_save,
            num_to_ask,
            tags: tags.deep_view(),
            exclude: exclude.deep_view(),
        };
        assert(words[i as int] == a@);
        if str_eq(a, "--flip") {
            flip = true;
            i += 1;
        } else if str_eq(a, "--in-order") {
            in_order = true;
            i += 1;
        } else if str_eq(a, "--no-save") {
            no_save = true;
            i += 1;
        } else if str_eq(a, "-n") || str_eq(a, "--tag") || str_eq(a, "--exclude") {
            match cmd_assert_next(args, i) {
                Err(m) => {
                    return Err(m);
                },
                Ok(()) => {},
            }
            assert(words[i + 1] == args[i + 1 as int]@);
            if str_eq(a, "-n") {
                match parse_count(args[i + 1].as_str()) {
                    Some(n) => {
                        num_to_ask = n;
                    },
                    None => {
                        return Err(String::from_str("Expected integer argument to -n."));
                    },
                }
            } else if str_eq(a, "--tag") {
                let ghost before = tags.deep_view();
                tags.push(args[i + 1].clone());
                assert(tags.deep_view() =~= before.push(words[i + 1]));
            } else {
                let ghost before = exclude.deep_view();
                exclude.push(args[i + 1].clone());
                assert(exclude.deep_view() =~= before.push(words[i + 1]));
            }
            i += 2;
        } else if starts_with_dash(a) {
            let m = concat("Unexpected option ", a);
            return Err(concat(m.as_str(), "."));
        } else {
            if name.is_some() {
                let m = concat("Unexpected positional argument '", a);
                return Err(concat(m.as_str(), "'."));
            }
            name = Some(args[i].clone());
            i += 1;
        }
    }
    let name = match name {
        Some(n) => n,
        None => String::from_str("main"),
    };
    Ok(TakeOptions {
        name,
        flip,
        in_order,
        no_save,
        num_to_ask,
        random: false,
        filter_opts: FilterOptions { exclude, tags },
    })
}

/// The options of the `results` subcommand read so far.
pub struct ResultsState {
    pub name: Option<Seq<char>>,
    pub sort: Seq<char>,
    pub num_to_show: Option<usize>,
}

/// The `results` options before any argument is read: the best results first,
/// all of them.
pub open spec fn initial_results() -> ResultsState {
    ResultsState { name: None, sort: "best"@, num_to_show: None }
}

/// The message for a value of `--sort` that names no order.
pub open spec fn unknown_sort(v: Seq<char>) -> Seq<char> {
    "Unknown value `"@ + v + "` for --sort."@
}

/// The `results` options that the words `args` from position `i` on give, after
/// `st`.
pub open spec fn results_from(args: Seq<Seq<char>>, i: int, st: ResultsState) -> Result<ResultsState, Seq<char>>
    decreases args.len() - i,
{
    if i < 0 || i >= args.len() {
        Ok(st)
    } else {
        let a = args[i];
        if a == "-n"@ || a == "-s"@ || a == "--sort"@ {
            match missing_argument(args, i) {
                Some(e) => Err(e),
                None => if a == "-n"@ {
                    match usize_value(args[i + 1]) {
                        Some(n) => results_from(args, i + 2, ResultsState { num_to_show: Some(n), ..st }),
                        None => Err("Expected integer argument to -n."@),
                    }
                } else if sort_order_of(args[i + 1]) is Some {
                    results_from(args, i + 2, ResultsState { sort: args[i + 1], ..st })
                } else {
                    Err(unknown_sort(args[i + 1]))
                },
            }
        } else if "-"@.is_prefix_of(a) {
            Err(unexpected_option(a))
        } else if st.name is Some {
            Err(unexpected_positional(a))
        } else {
            results_from(args, i + 1, ResultsState { name: Some(a), ..st })
        }
    }
}

/// The options that `st` gives, with the quiz named `main` when no name was given.
pub open spec fn results_options_match(o: ResultsOptions, st: ResultsState) -> bool {
    &&& o.name@ == match st.name {
        Some(n) => n,
        None => "main"@,
    }
    &&& o.sort@ == st.sort
    &&& o.num_to_show == st.num_to_show
}

/// Read the options of the `results` subcommand from `args`, whose first word is
/// the subcommand itself: `--sort` (or `-s`) with `best`, `worst`, `most` or
/// `least`, and `-n` with the number of lines to show.
pub fn parse_results_options(args: &Vec<String>) -> (r: Result<ResultsOptions, String>)
    ensures
        results_from(args.deep_view(), 1, initial_results()) matches Ok(st) ==> (r matches Ok(o)
            && results_options_match(o, st)),
        results_from(args.deep_view(), 1, initial_results()) matches Err(e) ==> (r matches Err(m) && m@ == e),
{
    let ghost words = args.deep_view();
    let mut name: Option<String> = None;
    let mut sort: String = String::from_str("best");
    let mut num_to_show: Option<usize> = None;
    proof {
        reveal_strlit("best");
    }
    let mut i: usize = 1;
    while i < args.len()
        invariant
            1 <= i,
            i <= args.len() || args.len() == 0,
            words == args.deep_view(),
            results_from(words, 1, initial_results()) == results_from(
                words,
                i as int,
                ResultsState { name: name.deep_view(), sort: sort@, num_to_show },
            ),
        decreases args.len() - i,
    {
        let a = args[i].as_str();
        assert(words[i as int] == a@);
        if str_eq(a, "-n") || str_eq(a, "-s") || str_eq(a, "--sort") {
            match cmd_assert_next(args, i) {
                Err(m) => {
                    return Err(m);
                },
                Ok(()) => {},
            }
            assert(words[i + 1] == args[i + 1 as int]@);
            if str_eq(a, "-n") {
                match parse_count(args[i + 1].as_str()) {
                    Some(n) => {
                        num_to_show = Some(n);
                    },
                    None => {
                        return Err(String::from_str("Expected integer argument to -n."));
                    },
                }
            } else {
                match sort_order(args[i + 1].as_str()) {
                    Some(_) => {
                        sort = args[i + 1].clone();
                    },
                    None => {
                        let m = concat("Unknown value `", args[i + 1].as_str());
                        return Err(concat(m.as_str(), "` for --sort."));
                    },
                }
            }
            i += 2;
        } else if starts_with_dash(a) {
            let m = concat("Unexpected option ", a);
            return Err(concat(m.as_str(), "."));
        } else {
            if name.is_some() {
                let m = concat("Unexpected positional argument '", a);
                return Err(concat(m.as_str(), "'."));
            }
            name = Some(args[i].clone());
            i += 1;
        }
    }
    let name = match name {
        Some(n) => n,
        None => String::from_str("main"),
    };
    Ok(ResultsOptions { name, num_to_show, sort })
}

/// What the command line asks for.
pub enum Request {
    /// Show the help text.
    Help,
    /// Run a subcommand.
    Run(Options),
}

/// The words after `--no-color`, if it comes first.
pub open spec fn after_color_flag(args: Seq<Seq<char>>) -> Seq<Seq<char>> {
    if args.len() > 0 && args[0] == "--no-color"@ {
        args.drop_first()
    } else {
        args
    }
}

/// Read the command line `args` (without the program's name): `--results`
/// runs the `results` subcommand, `-h` or `--help` asks for help, and anything
/// else takes a quiz; `--no-color` may come first.
pub fn parse_options(args: &Vec<String>) -> (r: Result<Request, String>)
    requires
        !(args.len() == 1 && args.deep_view()[0] == "--no-color"@),
    ensures
        args.len() == 0 ==> (r matches Ok(Request::Run(o)) && !o.no_color && (o.cmd matches Command::Take(t)
            && take_options_match(t, initial_take()))),
        args.len() > 0 ==> {
            let rest = after_color_flag(args.deep_view());
            let first = rest[0];
            if first == "--results"@ {
                match results_from(rest, 1, initial_results()) {
                    Ok(st) => r matches Ok(Request::Run(o)) && o.no_color == (args.deep_view()[0] == "--no-color"@)
                        && (o.cmd matches Command::Results(x) && results_options_match(x, st)),
                    Err(e) => r matches Err(m) && m@ == e,
                }
            } else if first == "-h"@ || first == "--help"@ {
                r matches Ok(Request::Help)
            } else {
                match take_from(rest, take_start(rest), initial_take()) {
                    Ok(st) => r matches Ok(Request::Run(o)) && o.no_color == (args.deep_view()[0] == "--no-color"@)
                        && (o.cmd matches Command::Take(t) && take_options_match(t, st)),
                    Err(e) => r matches Err(m) && m@ == e,
                }
            }
        },
{
    if args.len() == 0 {
        let empty: Vec<String> = Vec::new();
        let t = parse_take_options(&empty);
        proof {
            assert(empty.deep_view() =~= Seq::<Seq<char>>::empty());
        }
        return match t {
            Ok(t) => Ok(Request::Run(Options { no_color: false, cmd: Command::Take(t) })),
            Err(m) => Err(m),
        };
    }
    let no_color = str_eq(args[0].as_str(), "--no-color");
    let mut rest: Vec<String> = Vec::new();
    let mut i: usize = if no_color {
        1
    } else {
        0
    };
    let start = i;
    while i < args.len()
        invariant
            start <= i <= args.len(),
            rest.deep_view() == args.deep_view().subrange(start as int, i as int),
        decreases args.len() - i,
    {
        let ghost before = rest.deep_view();
        let w = args[i].clone();
        assert(w@ == args.deep_view()[i as int]);
        rest.push(w);
        assert(rest.deep_view() =~= before.push(args.deep_view()[i as int]));
        assert(rest.deep_view() =~= args.deep_view().subrange(start as int, i + 1));
        i += 1;
    }
    proof {
        assert(rest.deep_view() =~= after_color_flag(args.deep_view()));
    }
    let first = rest[0].as_str();
    assert(first@ == rest.deep_view()[0]);
    if str_eq(first, "--results") {
        match parse_results_options(&rest) {
            Ok(o) => Ok(Request::Run(Options { no_color, cmd: Command::Results(o) })),
            Err(m) => Err(m),
        }
    } else if str_eq(first, "-h") || str_eq(first, "--help") {
        Ok(Request::Help)
    } else {
        match parse_take_options(&rest) {
            Ok(o) => Ok(Request::Run(Options { no_color, cmd: Command::Take(o) })),
            Err(m) => Err(m),
        }
    }
}

} // verus!
