//! Character-level string helpers shared by the path and text logic.
//!
//! Strings are reasoned about through their views, sequences of `char`.
use vstd::prelude::*;

verus! {

broadcast use vstd::string::group_string_axioms;

// ---------------------------------------------------------------------------
// Specifications
// ---------------------------------------------------------------------------
/// `i` is the first position at which `pat` occurs in `s`.
pub open spec fn is_first_match(s: Seq<char>, pat: Seq<char>, i: int) -> bool {
    &&& 0 <= i
    &&& i + pat.len() <= s.len()
    &&& s.subrange(i, i + pat.len()) == pat
    &&& forall|j: int|
        0 <= j < i ==> #[trigger] s.subrange(j, j + pat.len()) != pat
}

/// The position of the first occurrence of `pat` in `s`, or -1 (`str::find`).
pub open spec fn find_sub(s: Seq<char>, pat: Seq<char>) -> int {
    if exists|i: int| is_first_match(s, pat, i) {
        choose|i: int| is_first_match(s, pat, i)
    } else {
        -1
    }
}

/// `i` is the last position of `c` in `s`.
pub open spec fn is_last_char(s: Seq<char>, c: char, i: int) -> bool {
    &&& 0 <= i < s.len()
    &&& s[i] == c
    &&& forall|j: int| i < j < s.len() ==> s[j] != c
}

/// The position of the last `c` in `s`, or -1 (`str::rfind` with a `char`).
pub open spec fn rfind_char(s: Seq<char>, c: char) -> int {
    if exists|i: int| is_last_char(s, c, i) {
        choose|i: int| is_last_char(s, c, i)
    } else {
        -1
    }
}

/// `i` is the first position of `c` in `s`.
pub open spec fn is_first_char(s: Seq<char>, c: char, i: int) -> bool {
    &&& 0 <= i < s.len()
    &&& s[i] == c
    &&& forall|j: int| 0 <= j < i ==> s[j] != c
}

/// The position of the first `c` in `s`, or -1.
pub open spec fn find_char(s: Seq<char>, c: char) -> int {
    if exists|i: int| is_first_char(s, c, i) {
        choose|i: int| is_first_char(s, c, i)
    } else {
        -1
    }
}

/// `s` begins with `p`.
pub open spec fn has_prefix(s: Seq<char>, p: Seq<char>) -> bool {
    p.len() <= s.len() && s.take(p.len() as int) == p
}

/// The Unicode `White_Space` property, as `char::is_whitespace` documents it.
pub open spec fn is_white_space(c: char) -> bool {
    let u = c as u32;
    ||| 0x9 <= u <= 0xD
    ||| u == 0x20
    ||| u == 0x85
    ||| u == 0xA0
    ||| u == 0x1680
    ||| 0x2000 <= u <= 0x200A
    ||| u == 0x2028
    ||| u == 0x2029
    ||| u == 0x202F
    ||| u == 0x205F
    ||| u == 0x3000
}

/// `s` without its leading white space.
pub open spec fn trim_start_ws(s: Seq<char>) -> Seq<char>
    decreases s.len(),
{
    if s.len() > 0 && is_white_space(s[0]) {
        trim_start_ws(s.drop_first())
    } else {
        s
    }
}

/// `s` without its trailing white space.
pub open spec fn trim_end_ws(s: Seq<char>) -> Seq<char>
    decreases s.len(),
{
    if s.len() > 0 && is_white_space(s.last()) {
        trim_end_ws(s.drop_last())
    } else {
        s
    }
}

/// `str::trim`: `s` without leading and trailing white space.
pub open spec fn trim_ws(s: Seq<char>) -> Seq<char> {
    trim_end_ws(trim_start_ws(s))
}

/// `s` without its leading `c` characters (`str::trim_start_matches` with a `char`).
pub open spec fn trim_start_char(s: Seq<char>, c: char) -> Seq<char>
    decreases s.len(),
{
    if s.len() > 0 && s[0] == c {
        trim_start_char(s.drop_first(), c)
    } else {
        s
    }
}

/// A line as `str::lines` yields it: the terminating `\n` removed, and
/// then a `\r` before it.
pub open spec fn strip_line_end(piece: Seq<char>) -> Seq<char> {
    if piece.len() > 0 && piece.last() == '\n' {
        let p = piece.drop_last();
        if p.len() > 0 && p.last() == '\r' {
            p.drop_last()
        } else {
            p
        }
    } else {
        piece
    }
}

/// The lines of `s`, as `str::lines` yields them: `s` is cut after each
/// `\n`, and each piece loses its line ending.
pub open spec fn lines(s: Seq<char>) -> Seq<Seq<char>>
    decreases s.len(),
{
    if s.len() == 0 {
        seq![]
    } else {
        let k = find_char(s, '\n');
        if k < 0 {
            seq![s]
        } else {
            seq![strip_line_end(s.take(k + 1))] + lines(s.skip(k + 1))
        }
    }
}

/// `s.lines().next().unwrap_or("")`.
pub open spec fn first_line(s: Seq<char>) -> Seq<char> {
    let ls = lines(s);
    if ls.len() == 0 {
        seq![]
    } else {
        ls[0]
    }
}

/// The pieces joined with `sep` between them (`[T]::join`).
pub open spec fn join(pieces: Seq<Seq<char>>, sep: Seq<char>) -> Seq<char>
    decreases pieces.len(),
{
    if pieces.len() == 0 {
        seq![]
    } else if pieces.len() == 1 {
        pieces[0]
    } else {
        join(pieces.drop_last(), sep) + sep + pieces.last()
    }
}

// ---------------------------------------------------------------------------
// Lemmas
// ---------------------------------------------------------------------------
pub proof fn lemma_find_sub_is(s: Seq<char>, pat: Seq<char>, i: int)
    requires
        is_first_match(s, pat, i),
    ensures
        find_sub(s, pat) == i,
{
    let k = choose|k: int| is_first_match(s, pat, k);
    if k < i {
        assert(s.subrange(k, k + pat.len()) != pat);
    } else if i < k {
        assert(s.subrange(i, i + pat.len()) != pat);
    }
}

pub proof fn lemma_find_sub_none(s: Seq<char>, pat: Seq<char>)
    requires
        forall|j: int|
            0 <= j && j + pat.len() <= s.len() ==> #[trigger] s.subrange(j, j + pat.len()) != pat,
    ensures
        find_sub(s, pat) == -1,
{
}

pub proof fn lemma_find_sub_facts(s: Seq<char>, pat: Seq<char>)
    ensures
        find_sub(s, pat) == -1 || is_first_match(s, pat, find_sub(s, pat)),
        find_sub(s, pat) == -1 ==> forall|j: int|
            0 <= j && j + pat.len() <= s.len() ==> #[trigger] s.subrange(j, j + pat.len()) != pat,
{
    if exists|i: int| is_first_match(s, pat, i) {
    } else {
        assert forall|j: int|
            0 <= j && j + pat.len() <= s.len() implies #[trigger] s.subrange(j, j + pat.len())
            != pat by {
            if s.subrange(j, j + pat.len()) == pat {
                // the smallest match is a first match
                lemma_first_match_exists(s, pat, j);
            }
        }
    }
}

proof fn lemma_first_match_exists(s: Seq<char>, pat: Seq<char>, j: int)
    requires
        0 <= j,
        j + pat.len() <= s.len(),
        s.subrange(j, j + pat.len()) == pat,
    ensures
        exists|i: int| is_first_match(s, pat, i),
    decreases j,
{
    if forall|k: int| 0 <= k < j ==> #[trigger] s.subrange(k, k + pat.len()) != pat {
        assert(is_first_match(s, pat, j));
    } else {
        let k = choose|k: int| 0 <= k < j && #[trigger] s.subrange(k, k + pat.len()) == pat;
        lemma_first_match_exists(s, pat, k);
    }
}

pub proof fn lemma_rfind_char_is(s: Seq<char>, c: char, i: int)
    requires
        is_last_char(s, c, i),
    ensures
        rfind_char(s, c) == i,
{
    let k = choose|k: int| is_last_char(s, c, k);
    if k < i {
        assert(s[i] == c);
    } else if i < k {
        assert(s[k] == c);
    }
}

pub proof fn lemma_rfind_char_none(s: Seq<char>, c: char)
    requires
        forall|j: int| 0 <= j < s.len() ==> s[j] != c,
    ensures
        rfind_char(s, c) == -1,
{
}

pub proof fn lemma_find_char_is(s: Seq<char>, c: char, i: int)
    requires
        is_first_char(s, c, i),
    ensures
        find_char(s, c) == i,
{
    let k = choose|k: int| is_first_char(s, c, k);
    if k < i {
        assert(s[k] == c);
    } else if i < k {
        assert(s[i] == c);
    }
}

pub proof fn lemma_find_char_none(s: Seq<char>, c: char)
    requires
        forall|j: int| 0 <= j < s.len() ==> s[j] != c,
    ensures
        find_char(s, c) == -1,
{
}

pub proof fn lemma_find_char_facts(s: Seq<char>, c: char)
    ensures
        find_char(s, c) == -1 || is_first_char(s, c, find_char(s, c)),
        find_char(s, c) == -1 ==> forall|j: int| 0 <= j < s.len() ==> s[j] != c,
{
    if exists|i: int| is_first_char(s, c, i) {
    } else {
        assert forall|j: int| 0 <= j < s.len() implies s[j] != c by {
            if s[j] == c {
                lemma_first_char_exists(s, c, j);
            }
        }
    }
}

proof fn lemma_first_char_exists(s: Seq<char>, c: char, j: int)
    requires
        0 <= j < s.len(),
        s[j] == c,
    ensures
        exists|i: int| is_first_char(s, c, i),
    decreases j,
{
    if forall|k: int| 0 <= k < j ==> s[k] != c {
        assert(is_first_char(s, c, j));
    } else {
        let k = choose|k: int| 0 <= k < j && s[k] == c;
        lemma_first_char_exists(s, c, k);
    }
}

pub proof fn lemma_rfind_char_facts(s: Seq<char>, c: char)
    ensures
        rfind_char(s, c) == -1 || is_last_char(s, c, rfind_char(s, c)),
        rfind_char(s, c) == -1 ==> forall|j: int| 0 <= j < s.len() ==> s[j] != c,
{
    if exists|i: int| is_last_char(s, c, i) {
    } else {
        assert forall|j: int| 0 <= j < s.len() implies s[j] != c by {
            if s[j] == c {
                lemma_last_char_exists(s, c, j);
            }
        }
    }
}

proof fn lemma_last_char_exists(s: Seq<char>, c: char, j: int)
    requires
        0 <= j < s.len(),
        s[j] == c,
    ensures
        exists|i: int| is_last_char(s, c, i),
    decreases s.len() - j,
{
    if forall|k: int| j < k < s.len() ==> s[k] != c {
        assert(is_last_char(s, c, j));
    } else {
        let k = choose|k: int| j < k < s.len() && s[k] == c;
        lemma_last_char_exists(s, c, k);
    }
}

// ---------------------------------------------------------------------------
// Executable helpers
// ---------------------------------------------------------------------------
/// `String::push`: appends `c` to `s`.
#[verifier::external_body]
fn string_push(s: &mut String, c: char)
    ensures
        final(s)@ == old(s)@.push(c),
{
    s.push(c);
}

/// The characters of `s`, in order.
pub fn chars_of(s: &str) -> (v: Vec<char>)
    ensures
        v@ == s@,
{
    let mut v: Vec<char> = Vec::new();
    for c in it: s.chars()
        invariant
            v@ == it.seq().take(it.index() as int),
    {
        v.push(c);
    }
    v
}

/// The string whose characters are `v`.
pub fn string_of(v: &[char]) -> (s: String)
    ensures
        s@ == v@,
{
    let mut s = String::new();
    let mut i: usize = 0;
    while i < v.len()
        invariant
            i <= v@.len(),
            s@ == v@.take(i as int),
        decreases v@.len() - i,
    {
        string_push(&mut s, v[i]);
        assert(v@.take(i + 1) == v@.take(i as int).push(v@[i as int]));
        i = i + 1;
    }
    assert(v@.take(v@.len() as int) == v@);
    s
}

/// The characters `v[from..to]`.
pub fn sub_chars(v: &[char], from: usize, to: usize) -> (r: Vec<char>)
    requires
        from <= to <= v@.len(),
    ensures
        r@ == v@.subrange(from as int, to as int),
{
    let mut r: Vec<char> = Vec::new();
    let mut i: usize = from;
    while i < to
        invariant
            from <= i <= to <= v@.len(),
            r@ == v@.subrange(from as int, i as int),
        decreases to - i,
    {
        r.push(v[i]);
        assert(v@.subrange(from as int, i + 1) == v@.subrange(from as int, i as int).push(
            v@[i as int],
        ));
        i = i + 1;
    }
    r
}

/// `a` followed by `b`.
pub fn concat_chars(a: &[char], b: &[char]) -> (r: Vec<char>)
    ensures
        r@ == a@ + b@,
{
    let mut r: Vec<char> = Vec::new();
    let mut i: usize = 0;
    while i < a.len()
        invariant
            i <= a@.len(),
            r@ == a@.take(i as int),
        decreases a@.len() - i,
    {
        r.push(a[i]);
        assert(a@.take(i + 1) == a@.take(i as int).push(a@[i as int]));
        i = i + 1;
    }
    assert(a@.take(a@.len() as int) == a@);
    let mut j: usize = 0;
    while j < b.len()
        invariant
            j <= b@.len(),
            r@ == a@ + b@.take(j as int),
        decreases b@.len() - j,
    {
        r.push(b[j]);
        assert(b@.take(j + 1) == b@.take(j as int).push(b@[j as int]));
        j = j + 1;
    }
    assert(b@.take(b@.len() as int) == b@);
    r
}

/// Whether `a` and `b` hold the same characters.
pub fn chars_eq(a: &[char], b: &[char]) -> (r: bool)
    ensures
        r == (a@ == b@),
{
    if a.len() != b.len() {
        return false;
    }
    let mut i: usize = 0;
    while i < a.len()
        invariant
            a@.len() == b@.len(),
            i <= a@.len(),
            forall|j: int| 0 <= j < i ==> a@[j] == b@[j],
        decreases a@.len() - i,
    {
        if a[i] != b[i] {
            return false;
        }
        i = i + 1;
    }
    assert(a@ == b@);
    true
}

/// Whether `pat` occurs in `v` at position `at`.
pub fn matches_at(v: &[char], pat: &[char], at: usize) -> (r: bool)
    requires
        at + pat@.len() <= v@.len(),
    ensures
        r == (v@.subrange(at as int, at + pat@.len()) == pat@),
{
    let n = v.len();
    let mut i: usize = 0;
    while i < pat.len()
        invariant
            n == v@.len(),
            at + pat@.len() <= v@.len(),
            i <= pat@.len(),
            forall|j: int| 0 <= j < i ==> v@[at + j] == pat@[j],
        decreases pat@.len() - i,
    {
        assert(at + i < v@.len());
        let k = at + i;
        if v[k] != pat[i] {
            assert(v@.subrange(at as int, at + pat@.len())[i as int] != pat@[i as int]);
            return false;
        }
        i = i + 1;
    }
    assert(v@.subrange(at as int, at + pat@.len()) == pat@);
    true
}

/// Whether `v` begins with `p` (`str::starts_with`).
pub fn starts_with_chars(v: &[char], p: &[char]) -> (r: bool)
    ensures
        r == has_prefix(v@, p@),
{
    if p.len() > v.len() {
        return false;
    }
    let r = matches_at(v, p, 0);
    assert(v@.subrange(0, p@.len() as int) == v@.take(p@.len() as int));
    r
}

/// The position of the first occurrence of `pat` in `v` (`str::find`).
pub fn find_sub_chars(v: &[char], pat: &[char]) -> (r: Option<usize>)
    ensures
        match r {
            Some(i) => find_sub(v@, pat@) == i as int,
            None => find_sub(v@, pat@) == -1,
        },
{
    if pat.len() > v.len() {
        proof {
            lemma_find_sub_none(v@, pat@);
        }
        return None;
    }
    let last = v.len() - pat.len();
    let mut i: usize = 0;
    loop
        invariant
            last + pat@.len() == v@.len(),
            i <= last,
            forall|j: int|
                0 <= j < i ==> #[trigger] v@.subrange(j, j + pat@.len()) != pat@,
        decreases last - i,
    {
        if matches_at(v, pat, i) {
            proof {
                lemma_find_sub_is(v@, pat@, i as int);
            }
            return Some(i);
        }
        if i == last {
            proof {
                lemma_find_sub_none(v@, pat@);
            }
            return None;
        }
        i = i + 1;
    }
}

/// The position of the last `c` in `v` (`str::rfind`).
pub fn rfind_char_in(v: &[char], c: char) -> (r: Option<usize>)
    ensures
        match r {
            Some(i) => rfind_char(v@, c) == i as int,
            None => rfind_char(v@, c) == -1,
        },
{
    let mut i: usize = v.len();
    while i > 0
        invariant
            i <= v@.len(),
            forall|j: int| i <= j < v@.len() ==> v@[j] != c,
        decreases i,
    {
        if v[i - 1] == c {
            proof {
                lemma_rfind_char_is(v@, c, i - 1);
            }
            return Some(i - 1);
        }
        i = i - 1;
    }
    proof {
        lemma_rfind_char_none(v@, c);
    }
    None
}

/// The position of the first `c` in `v` (`str::find` with a `char`).
pub fn find_char_in(v: &[char], c: char) -> (r: Option<usize>)
    ensures
        match r {
            Some(i) => find_char(v@, c) == i as int,
            None => find_char(v@, c) == -1,
        },
{
    let mut i: usize = 0;
    while i < v.len()
        invariant
            i <= v@.len(),
            forall|j: int| 0 <= j < i ==> v@[j] != c,
        decreases v@.len() - i,
    {
        if v[i] == c {
            proof {
                lemma_find_char_is(v@, c, i as int);
            }
            return Some(i);
        }
        i = i + 1;
    }
    proof {
        lemma_find_char_none(v@, c);
    }
    None
}

/// Whether `c` is white space (`char::is_whitespace`).
pub fn is_whitespace(c: char) -> (r: bool)
    ensures
        r == is_white_space(c),
{
    let u = c as u32;
    (0x9 <= u && u <= 0xD) || u == 0x20 || u == 0x85 || u == 0xA0 || u == 0x1680 || (0x2000 <= u
        && u <= 0x200A) || u == 0x2028 || u == 0x2029 || u == 0x202F || u == 0x205F || u == 0x3000
}

/// `str::trim` on characters.
pub fn trim_chars(v: &[char]) -> (r: Vec<char>)
    ensures
        r@ == trim_ws(v@),
{
    let mut a: usize = 0;
    assert(v@.skip(0) == v@);
    while a < v.len() && is_whitespace(v[a])
        invariant
            a <= v@.len(),
            trim_start_ws(v@) == trim_start_ws(v@.skip(a as int)),
        decreases v@.len() - a,
    {
        assert(v@.skip(a as int).drop_first() == v@.skip(a + 1));
        a = a + 1;
    }
    let mut b: usize = v.len();
    let ghost t = v@.skip(a as int);
    assert(trim_start_ws(v@) == t);
    while b > a && is_whitespace(v[b - 1])
        invariant
            a <= b <= v@.len(),
            t == v@.skip(a as int),
            trim_end_ws(t) == trim_end_ws(v@.subrange(a as int, b as int)),
        decreases b - a,
    {
        assert(v@.subrange(a as int, b as int).drop_last() == v@.subrange(a as int, b - 1));
        b = b - 1;
    }
    assert(v@.subrange(a as int, v@.len() as int) == t);
    sub_chars(v, a, b)
}

/// `str::trim_start_matches` with a single `char`.
pub fn trim_start_char_in(v: &[char], c: char) -> (r: Vec<char>)
    ensures
        r@ == trim_start_char(v@, c),
{
    let mut a: usize = 0;
    assert(v@.skip(0) == v@);
    while a < v.len() && v[a] == c
        invariant
            a <= v@.len(),
            trim_start_char(v@, c) == trim_start_char(v@.skip(a as int), c),
        decreases v@.len() - a,
    {
        assert(v@.skip(a as int).drop_first() == v@.skip(a + 1));
        a = a + 1;
    }
    assert(v@.subrange(a as int, v@.len() as int) == v@.skip(a as int));
    sub_chars(v, a, v.len())
}

/// The line that `str::lines` yields from the piece `v[from..to]`, where
/// the piece is either the rest of the text or ends with its `\n`.
fn line_of_piece(v: &[char], from: usize, to: usize) -> (r: Vec<char>)
    requires
        from <= to <= v@.len(),
    ensures
        r@ == strip_line_end(v@.subrange(from as int, to as int)),
{
    let ghost piece = v@.subrange(from as int, to as int);
    if to > from && v[to - 1] == '\n' {
        assert(piece.drop_last() == v@.subrange(from as int, to - 1));
        if to - 1 > from && v[to - 2] == '\r' {
            assert(piece.drop_last().drop_last() == v@.subrange(from as int, to - 2));
            sub_chars(v, from, to - 2)
        } else {
            sub_chars(v, from, to - 1)
        }
    } else {
        sub_chars(v, from, to)
    }
}

/// No line of `s` holds a `\n`.
pub proof fn lemma_lines_no_newline(s: Seq<char>)
    ensures
        forall|i: int| 0 <= i < lines(s).len() ==> !(#[trigger] lines(s)[i]).contains('\n'),
    decreases s.len(),
{
    if s.len() > 0 {
        lemma_find_char_facts(s, '\n');
        let k = find_char(s, '\n');
        if k < 0 {
            assert(lines(s) == seq![s]);
        } else {
            let rest = s.skip(k + 1);
            lemma_lines_no_newline(rest);
            let first = strip_line_end(s.take(k + 1));
            assert(s.take(k + 1).drop_last() == s.take(k));
            assert forall|j: int| 0 <= j < first.len() implies first[j] != '\n' by {
                assert(first[j] == s[j]);
            }
            assert(lines(s) == seq![first] + lines(rest));
            assert forall|i: int| 0 <= i < lines(s).len() implies !(#[trigger] lines(s)[i]).contains(
                '\n',
            ) by {
                if i > 0 {
                    assert(lines(s)[i] == lines(rest)[i - 1]);
                }
            }
        }
    }
}

/// A join of two or more pieces, from its first piece on.
pub proof fn lemma_join_first(pieces: Seq<Seq<char>>, sep: Seq<char>)
    requires
        pieces.len() >= 2,
    ensures
        join(pieces, sep) == pieces[0] + sep + join(pieces.drop_first(), sep),
    decreases pieces.len(),
{
    let rest = pieces.drop_first();
    if pieces.len() == 2 {
        assert(pieces.drop_last().len() == 1);
        assert(join(pieces.drop_last(), sep) == pieces[0]);
        assert(rest.len() == 1);
        assert(join(rest, sep) == pieces[1]);
        assert(join(pieces, sep) == pieces[0] + sep + pieces[1]);
    } else {
        let front = pieces.drop_last();
        lemma_join_first(front, sep);
        assert(front.drop_first() =~= rest.drop_last());
        assert(rest.last() == pieces.last());
        assert(front[0] == pieces[0]);
        assert(join(pieces, sep) == join(front, sep) + sep + pieces.last());
        assert(join(rest, sep) == join(rest.drop_last(), sep) + sep + rest.last());
        assert(join(pieces, sep) =~= pieces[0] + sep + (join(rest.drop_last(), sep) + sep
            + rest.last()));
    }
}

/// `piece` ends with a carriage return.
pub open spec fn ends_with_cr(piece: Seq<char>) -> bool {
    piece.len() > 0 && piece.last() == '\r'
}

/// Lines written one per line, each ended by `\n`, are read back as the
/// same lines, when none of them holds a `\n` or ends with a `\r`.
pub proof fn lemma_lines_of_joined(ls: Seq<Seq<char>>)
    requires
        ls.len() > 0,
        forall|i: int| 0 <= i < ls.len() ==> !(#[trigger] ls[i]).contains('\n'),
        forall|i: int| 0 <= i < ls.len() ==> !ends_with_cr(#[trigger] ls[i]),
    ensures
        lines(join(ls, "\n"@) + "\n"@) == ls,
    decreases ls.len(),
{
    let nl = "\n"@;
    assert(nl.len() == 1 && nl[0] == '\n') by {
        reveal_strlit("\n");
    }
    let first = ls[0];
    assert(!ls[0].contains('\n'));
    assert(!ends_with_cr(ls[0]));
    let rest_text = if ls.len() == 1 {
        Seq::<char>::empty()
    } else {
        join(ls.drop_first(), nl) + nl
    };
    let s = join(ls, nl) + nl;
    if ls.len() >= 2 {
        lemma_join_first(ls, nl);
    }
    assert(s =~= first + nl + rest_text);
    assert forall|j: int| 0 <= j < first.len() implies s[j] != '\n' by {
        assert(s[j] == first[j]);
    }
    assert(s[first.len() as int] == '\n');
    lemma_find_char_is(s, '\n', first.len() as int);
    assert(s.take(first.len() as int + 1) =~= first + nl);
    assert((first + nl).drop_last() =~= first);
    assert(s.skip(first.len() as int + 1) =~= rest_text);
    if ls.len() == 1 {
        assert(lines(rest_text) == Seq::<Seq<char>>::empty());
        assert(lines(s) == seq![first] + lines(rest_text));
        assert(lines(s) =~= ls);
    } else {
        let rest = ls.drop_first();
        assert forall|i: int| 0 <= i < rest.len() implies !(#[trigger] rest[i]).contains('\n')
            && !ends_with_cr(rest[i]) by {
            assert(rest[i] == ls[i + 1]);
        }
        lemma_lines_of_joined(rest);
        assert(lines(s) == seq![first] + lines(rest_text));
        assert(lines(s) =~= ls);
    }
}

proof fn lemma_find_char_skip(s: Seq<char>, c: char, from: int, k: int)
    requires
        0 <= from <= s.len(),
        from <= k < s.len(),
        s[k] == c,
        forall|j: int| from <= j < k ==> s[j] != c,
    ensures
        find_char(s.skip(from), c) == k - from,
{
    lemma_find_char_is(s.skip(from), c, k - from);
}

proof fn lemma_find_char_skip_none(s: Seq<char>, c: char, from: int)
    requires
        0 <= from <= s.len(),
        forall|j: int| from <= j < s.len() ==> s[j] != c,
    ensures
        find_char(s.skip(from), c) == -1,
{
    lemma_find_char_none(s.skip(from), c);
}

/// `str::lines`.
pub fn lines_of(v: &[char]) -> (r: Vec<Vec<char>>)
    ensures
        r@.map_values(|l: Vec<char>| l@) == lines(v@),
{
    let mut r: Vec<Vec<char>> = Vec::new();
    let mut from: usize = 0;
    let mut i: usize = 0;
    assert(v@.skip(0) == v@);
    assert(r@.map_values(|l: Vec<char>| l@) == Seq::<Seq<char>>::empty());
    // `from` is the start of the current piece; `i` scans for its `\n`.
    while i < v.len()
        invariant
            from <= i <= v@.len(),
            forall|j: int| from <= j < i ==> v@[j] != '\n',
            r@.map_values(|l: Vec<char>| l@) + lines(v@.skip(from as int)) == lines(v@),
        decreases v@.len() - i,
    {
        if v[i] == '\n' {
            let line = line_of_piece(v, from, i + 1);
            proof {
                let rest = v@.skip(from as int);
                lemma_find_char_skip(v@, '\n', from as int, i as int);
                assert(rest.take(i - from + 1) == v@.subrange(from as int, i + 1));
                assert(rest.skip(i - from + 1) == v@.skip(i + 1));
                assert(lines(rest) == seq![line@] + lines(v@.skip(i + 1)));
            }
            let ghost before = r@.map_values(|l: Vec<char>| l@);
            r.push(line);
            assert(r@.map_values(|l: Vec<char>| l@) == before.push(line@));
            assert(before.push(line@) + lines(v@.skip(i + 1)) == before + (seq![line@] + lines(
                v@.skip(i + 1),
            )));
            from = i + 1;
        }
        i = i + 1;
    }
    if from < v.len() {
        let line = sub_chars(v, from, v.len());
        proof {
            let rest = v@.skip(from as int);
            lemma_find_char_skip_none(v@, '\n', from as int);
            assert(line@ == rest);
            assert(lines(rest) == seq![line@]);
        }
        let ghost before = r@.map_values(|l: Vec<char>| l@);
        r.push(line);
        assert(r@.map_values(|l: Vec<char>| l@) == before.push(line@));
    } else {
        assert(v@.skip(from as int).len() == 0);
        assert(lines(v@.skip(from as int)) == Seq::<Seq<char>>::empty());
        assert(r@.map_values(|l: Vec<char>| l@) + Seq::<Seq<char>>::empty() == r@.map_values(
            |l: Vec<char>| l@,
        ));
    }
    r
}

/// `s.lines().next().unwrap_or("")`.
pub fn first_line_of(v: &[char]) -> (r: Vec<char>)
    ensures
        r@ == first_line(v@),
{
    let ls = lines_of(v);
    assert(ls@.len() == lines(v@).len());
    if ls.len() == 0 {
        Vec::new()
    } else {
        assert(ls@[0]@ == lines(v@)[0]);
        let mut r: Vec<char> = Vec::new();
        let first = &ls[0];
        let mut i: usize = 0;
        while i < first.len()
            invariant
                i <= first@.len(),
                r@ == first@.take(i as int),
            decreases first@.len() - i,
        {
            r.push(first[i]);
            assert(first@.take(i + 1) == first@.take(i as int).push(first@[i as int]));
            i = i + 1;
        }
        assert(first@.take(first@.len() as int) == first@);
        r
    }
}

} // verus!
