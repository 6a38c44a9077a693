//! Character-level text utilities: whitespace trimming, searching, splitting,
//! comparison and normalization of strings, each specified over `Seq<char>`.
use vstd::prelude::*;

use unicode_normalization::UnicodeNormalization;

verus! {

/// The Unicode `White_Space` property, which `char::is_whitespace` and
/// `str::trim` use.
pub open spec fn is_ws(c: char) -> bool {
    let n = c as u32;
    ||| 0x9 <= n <= 0xd
    ||| n == 0x20
    ||| n == 0x85
    ||| n == 0xa0
    ||| n == 0x1680
    ||| 0x2000 <= n <= 0x200a
    ||| n == 0x2028
    ||| n == 0x2029
    ||| n == 0x202f
    ||| n == 0x205f
    ||| n == 0x3000
}

/// `s` without its leading whitespace.
pub open spec fn trim_start(s: Seq<char>) -> Seq<char>
    decreases s.len(),
{
    if s.len() > 0 && is_ws(s[0]) {
        trim_start(s.drop_first())
    } else {
        s
    }
}

/// `s` without its trailing whitespace.
pub open spec fn trim_end(s: Seq<char>) -> Seq<char>
    decreases s.len(),
{
    if s.len() > 0 && is_ws(s.last()) {
        trim_end(s.drop_last())
    } else {
        s
    }
}

/// `s` without leading and trailing whitespace.
pub open spec fn trim(s: Seq<char>) -> Seq<char> {
    trim_end(trim_start(s))
}

/// `pat` occurs in `s` at position `i`.
pub open spec fn matches_at(s: Seq<char>, pat: Seq<char>, i: int) -> bool {
    0 <= i && i + pat.len() <= s.len() && s.subrange(i, i + pat.len()) == pat
}

/// The first position at or after `i` where `pat` occurs in `s`.
pub open spec fn find_from(s: Seq<char>, pat: Seq<char>, i: int) -> Option<int>
    decreases s.len() + 1 - i,
{
    if i < 0 || i + pat.len() > s.len() {
        None
    } else if matches_at(s, pat, i) {
        Some(i)
    } else {
        find_from(s, pat, i + 1)
    }
}

/// The first position where `pat` occurs in `s`, as `str::find` returns it
/// (counted in characters).
pub open spec fn find(s: Seq<char>, pat: Seq<char>) -> Option<int> {
    find_from(s, pat, 0)
}

/// The pieces of `s` between the occurrences of `pat`, as `str::split` gives them.
pub open spec fn split_by(s: Seq<char>, pat: Seq<char>) -> Seq<Seq<char>>
    decreases s.len(),
{
    if pat.len() == 0 {
        seq![Seq::<char>::empty()] + s.map_values(|c: char| seq![c]) + seq![Seq::<char>::empty()]
    } else {
        match find(s, pat) {
            Some(i) => {
                proof {
                    lemma_find_from(s, pat, 0);
                }
                seq![s.subrange(0, i)] + split_by(s.subrange(i + pat.len(), s.len() as int), pat)
            },
            None => seq![s],
        }
    }
}

/// The pieces of `s` between the occurrences of `pat`, each trimmed.
pub open spec fn split_trimmed(s: Seq<char>, pat: Seq<char>) -> Seq<Seq<char>> {
    split_by(s, pat).map_values(|w: Seq<char>| trim(w))
}

/// What `find_from` returns is an occurrence, and the first one.
pub proof fn lemma_find_from(s: Seq<char>, pat: Seq<char>, i: int)
    requires
        0 <= i,
    ensures
        find_from(s, pat, i) matches Some(j) ==> {
            &&& i <= j
            &&& matches_at(s, pat, j)
            &&& forall|k: int| i <= k < j ==> !matches_at(s, pat, k)
        },
        find_from(s, pat, i) is None ==> forall|k: int| i <= k ==> !matches_at(s, pat, k),
    decreases s.len() + 1 - i,
{
    if i + pat.len() > s.len() {
    } else if matches_at(s, pat, i) {
    } else {
        lemma_find_from(s, pat, i + 1);
    }
}

/// Whether `c` is whitespace, as `char::is_whitespace` says.
pub fn is_whitespace(c: char) -> (r: bool)
    ensures
        r == is_ws(c),
{
    let n = c as u32;
    (0x9 <= n && n <= 0xd) || n == 0x20 || n == 0x85 || n == 0xa0 || n == 0x1680 || (0x2000 <= n
        && n <= 0x200a) || n == 0x2028 || n == 0x2029 || n == 0x202f || n == 0x205f || n == 0x3000
}

/// The characters of `s`, in order.
pub fn chars_of(s: &str) -> (v: Vec<char>)
    ensures
        v@ == s@,
{
    let mut v: Vec<char> = Vec::new();
    for c in it: s.chars()
        invariant
            v@ == it.seq().take(it.index() as int),
    {
        v.push(c);
    }
    v
}

/// Appends `c` to `s`: `String::push`.
#[verifier::external_body]
fn push_char(s: &mut String, c: char)
    ensures
        final(s)@ == old(s)@.push(c),
{
    s.push(c)
}

/// The string made of the characters `v[from..to]`.
pub fn string_of(v: &Vec<char>, from: usize, to: usize) -> (s: String)
    requires
        from <= to <= v.len(),
    ensures
        s@ == v@.subrange(from as int, to as int),
{
    let mut s = String::new();
    let mut i = from;
    while i < to
        invariant
            from <= i <= to <= v.len(),
            s@ == v@.subrange(from as int, i as int),
        decreases to - i,
    {
        push_char(&mut s, v[i]);
        i += 1;
        assert(s@ =~= v@.subrange(from as int, i as int));
    }
    s
}

/// The characters `v[from..to]`.
pub fn sub_chars(v: &Vec<char>, from: usize, to: usize) -> (r: Vec<char>)
    requires
        from <= to <= v.len(),
    ensures
        r@ == v@.subrange(from as int, to as int),
{
    let mut r: Vec<char> = Vec::new();
    let mut i = from;
    while i < to
        invariant
            from <= i <= to <= v.len(),
            r@ == v@.subrange(from as int, i as int),
        decreases to - i,
    {
        r.push(v[i]);
        i += 1;
        assert(r@ =~= v@.subrange(from as int, i as int));
    }
    r
}

proof fn lemma_trim_start(s: Seq<char>, i: int)
    requires
        0 <= i <= s.len(),
        forall|k: int| 0 <= k < i ==> is_ws(#[trigger] s[k]),
        i == s.len() || !is_ws(s[i]),
    ensures
        trim_start(s) == s.subrange(i, s.len() as int),
    decreases i,
{
    if i == 0 {
        assert(s.subrange(0, s.len() as int) =~= s);
    } else {
        assert(is_ws(s[0]));
        let t = s.drop_first();
        assert forall|k: int| 0 <= k < i - 1 implies is_ws(#[trigger] t[k]) by {
            assert(t[k] == s[k + 1]);
        }
        lemma_trim_start(t, i - 1);
        assert(t.subrange(i - 1, t.len() as int) =~= s.subrange(i, s.len() as int));
    }
}

proof fn lemma_trim_end(s: Seq<char>, j: int)
    requires
        0 <= j <= s.len(),
        forall|k: int| j <= k < s.len() ==> is_ws(#[trigger] s[k]),
        j == 0 || !is_ws(s[j - 1]),
    ensures
        trim_end(s) == s.subrange(0, j),
    decreases s.len() - j,
{
    if j == s.len() {
        assert(s.subrange(0, j) =~= s);
    } else {
        assert(is_ws(s.last()));
        let t = s.drop_last();
        lemma_trim_end(t, j);
        assert(t.subrange(0, j) =~= s.subrange(0, j));
    }
}

/// The characters of `v` without leading and trailing whitespace.
pub fn trim_chars(v: &Vec<char>) -> (r: Vec<char>)
    ensures
        r@ == trim(v@),
{
    let n = v.len();
    let mut i: usize = 0;
    while i < n && is_whitespace(v[i])
        invariant
            0 <= i <= n == v.len(),
            forall|k: int| 0 <= k < i ==> is_ws(#[trigger] v@[k]),
        decreases n - i,
    {
        i += 1;
    }
    proof {
        lemma_trim_start(v@, i as int);
    }
    let ghost t = v@.subrange(i as int, n as int);
    let mut j: usize = n;
    while j > i && is_whitespace(v[j - 1])
        invariant
            i <= j <= n == v.len(),
            t == v@.subrange(i as int, n as int),
            forall|k: int| j <= k < n ==> is_ws(#[trigger] v@[k]),
        decreases j,
    {
        j -= 1;
    }
    proof {
        assert forall|k: int| j - i <= k < t.len() implies is_ws(#[trigger] t[k]) by {
            assert(t[k] == v@[k + i]);
        }
        if j > i {
            assert(t[j - i - 1] == v@[j - 1]);
        }
        lemma_trim_end(t, j - i);
        assert(t.subrange(0, j - i) =~= v@.subrange(i as int, j as int));
    }
    sub_chars(v, i, j)
}

/// The string `s` without leading and trailing whitespace: `str::trim`.
pub fn trim_str(s: &str) -> (r: String)
    ensures
        r@ == trim(s@),
{
    let v = chars_of(s);
    let t = trim_chars(&v);
    string_of(&t, 0, t.len())
}

/// Whether `v[i..]` starts with `pat`.
fn matches_at_exec(v: &Vec<char>, pat: &Vec<char>, i: usize) -> (r: bool)
    ensures
        r == matches_at(v@, pat@, i as int),
{
    if i > v.len() || pat.len() > v.len() - i {
        return false;
    }
    let mut k: usize = 0;
    while k < pat.len()
        invariant
            i + pat.len() <= v.len(),
            0 <= k <= pat.len(),
            forall|m: int| 0 <= m < k ==> v@[i + m] == pat@[m],
        decreases pat.len() - k,
    {
        if v[i + k] != pat[k] {
            assert(v@.subrange(i as int, i + pat.len())[k as int] != pat@[k as int]);
            return false;
        }
        k += 1;
    }
    assert(v@.subrange(i as int, i + pat.len()) =~= pat@);
    true
}

/// The first position of `pat` in `v`: `str::find`, counted in characters.
pub fn find_chars(v: &Vec<char>, pat: &Vec<char>) -> (r: Option<usize>)
    ensures
        r matches Some(i) ==> find(v@, pat@) == Some(i as int),
        r is None ==> find(v@, pat@) is None,
{
    if pat.len() > v.len() {
        return None;
    }
    let last = v.len() - pat.len();
    let mut i: usize = 0;
    loop
        invariant
            last + pat.len() == v.len(),
            0 <= i <= last,
            find(v@, pat@) == find_from(v@, pat@, i as int),
        decreases last - i,
    {
        if matches_at_exec(v, pat, i) {
            return Some(i);
        }
        if i == last {
            assert(find_from(v@, pat@, i + 1) is None);
            return None;
        }
        i += 1;
    }
}

/// The first position of the character `c` in `v`.
pub fn find_char(v: &Vec<char>, c: char) -> (r: Option<usize>)
    ensures
        r matches Some(i) ==> find(v@, seq![c]) == Some(i as int),
        r is None ==> find(v@, seq![c]) is None,
{
    let mut pat: Vec<char> = Vec::new();
    pat.push(c);
    assert(pat@ =~= seq![c]);
    find_chars(v, &pat)
}

/// Whether `v` starts with `pat`: `str::starts_with`.
pub fn starts_with(v: &Vec<char>, pat: &Vec<char>) -> (r: bool)
    ensures
        r == pat@.is_prefix_of(v@),
{
    let r = matches_at_exec(v, pat, 0);
    proof {
        if r {
            assert(v@.subrange(0, pat@.len() as int) == pat@);
        } else if pat@.len() <= v@.len() {
            assert(v@.subrange(0, pat@.len() as int) != pat@);
        }
    }
    r
}

/// Whether two strings hold the same characters.
pub fn str_eq(a: &str, b: &str) -> (r: bool)
    ensures
        r == (a@ == b@),
{
    let va = chars_of(a);
    let vb = chars_of(b);
    chars_eq(&va, &vb)
}

/// Whether two character vectors are equal.
pub fn chars_eq(a: &Vec<char>, b: &Vec<char>) -> (r: bool)
    ensures
        r == (a@ == b@),
{
    if a.len() != b.len() {
        return false;
    }
    let mut i: usize = 0;
    while i < a.len()
        invariant
            a.len() == b.len(),
            0 <= i <= a.len(),
            forall|k: int| 0 <= k < i ==> a@[k] == b@[k],
        decreases a.len() - i,
    {
        if a[i] != b[i] {
            return false;
        }
        i += 1;
    }
    assert(a@ =~= b@);
    true
}

/// The pieces of `s` between the occurrences of `pat`, each trimmed and made a
/// `String`: `s.split(pat).map(|w| w.trim().to_string())`.
pub fn split_trim(s: &str, pat: &str) -> (r: Vec<String>)
    ensures
        r@.map_values(|x: String| x@) == split_trimmed(s@, pat@),
{
    let v = chars_of(s);
    let p = chars_of(pat);
    let mut out: Vec<String> = Vec::new();
    if p.len() == 0 {
        out.push(String::new());
        let mut i: usize = 0;
        while i < v.len()
            invariant
                0 <= i <= v.len(),
                out@.len() == i + 1,
                out@[0]@ == Seq::<char>::empty(),
                forall|k: int| 1 <= k <= i ==> #[trigger] out@[k]@ == trim(seq![v@[k - 1]]),
            decreases v.len() - i,
        {
            let one = sub_chars(&v, i, i + 1);
            let t = trim_chars(&one);
            out.push(string_of(&t, 0, t.len()));
            proof {
                assert(one@ =~= seq![v@[i as int]]);
            }
            i += 1;
        }
        out.push(String::new());
        proof {
            let pieces = split_by(v@, p@);
            assert(pieces.len() == v@.len() + 2);
            assert(trim(Seq::<char>::empty()) == Seq::<char>::empty()) by {
                reveal_with_fuel(trim_start, 1);
                reveal_with_fuel(trim_end, 1);
            }
            assert forall|k: int| 0 <= k < out@.len() implies #[trigger] out@[k]@ == trim(
                pieces[k],
            ) by {
                if 1 <= k <= v@.len() {
                    assert(pieces[k] == seq![v@[k - 1]]);
                }
            }
            assert(out@.map_values(|x: String| x@) =~= split_trimmed(v@, p@));
        }
        return out;
    }
    let mut rest = v;
    loop
        invariant
            p@.len() > 0,
            p@ == pat@,
            out@.map_values(|x: String| x@) + split_trimmed(rest@, p@) == split_trimmed(s@, pat@),
        decreases rest@.len(),
    {
        match find_chars(&rest, &p) {
            Some(i) => {
                proof {
                    lemma_find_from(rest@, p@, 0);
                }
                let piece = sub_chars(&rest, 0, i);
                let t = trim_chars(&piece);
                let ghost old_out = out@.map_values(|x: String| x@);
                let ghost old_vec = out@;
                let ghost old_rest = rest@;
                let st = string_of(&t, 0, t.len());
                assert(st@ =~= trim(old_rest.subrange(0, i as int)));
                out.push(st);
                assert(out@ == old_vec.push(st));
                let next = sub_chars(&rest, i + p.len(), rest.len());
                rest = next;
                proof {
                    assert(out@.map_values(|x: String| x@) =~= old_out.push(trim(old_rest.subrange(0, i as int))));
                    assert(split_trimmed(old_rest, p@) =~= seq![trim(old_rest.subrange(0, i as int))] + split_trimmed(rest@, p@));
                    assert(out@.map_values(|x: String| x@) + split_trimmed(rest@, p@) =~= old_out + split_trimmed(old_rest, p@));
                }
            },
            None => {
                let t = trim_chars(&rest);
                let ghost old_out = out@.map_values(|x: String| x@);
                let ghost old_vec = out@;
                let st = string_of(&t, 0, t.len());
                assert(st@ =~= trim(rest@));
                out.push(st);
                assert(out@ == old_vec.push(st));
                proof {
                    assert(split_trimmed(rest@, p@) =~= seq![trim(rest@)]);
                    assert(out@.map_values(|x: String| x@) =~= old_out + split_trimmed(rest@, p@));
                }
                return out;
            },
        }
    }
}

/// The name for what `str::to_lowercase` returns on a string.
pub uninterp spec fn lowercase_of(s: Seq<char>) -> Seq<char>;

/// The name for what the Unicode canonical composition (NFC) of a string is.
pub uninterp spec fn nfc_of(s: Seq<char>) -> Seq<char>;

/// `str::to_lowercase`: the contract only names the result, since the Unicode
/// case tables are not written out here.
#[verifier::external_body]
fn to_lowercase(s: &str) -> (r: String)
    ensures
        r@ == lowercase_of(s@),
{
    s.to_lowercase()
}

/// `UnicodeNormalization::nfc` from unicode-normalization, collected into a
/// `String`: the contract only names the result.
#[verifier::external_body]
fn to_nfc(s: &str) -> (r: String)
    ensures
        r@ == nfc_of(s@),
{
    s.nfc().collect::<String>()
}

/// The form in which answers are compared: lowercased, then composed (NFC).
pub open spec fn normal_form(s: Seq<char>) -> Seq<char> {
    nfc_of(lowercase_of(s))
}

/// Lowercases `guess` and composes it to Unicode normal form C.
pub fn normalize(guess: &str) -> (r: String)
    ensures
        r@ == normal_form(guess@),
{
    let lower = to_lowercase(guess);
    to_nfc(lower.as_str())
}

/// The lowercase form of `s`.
pub fn lowercase(s: &str) -> (r: String)
    ensures
        r@ == lowercase_of(s@),
{
    to_lowercase(s)
}

} // verus!
