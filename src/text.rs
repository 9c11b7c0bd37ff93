//! Helpers on text: conversions between strings and characters, whitespace and lines.
use vstd::prelude::*;

verus! {

/// Whether the regular expression `pattern` compiles and finds a match in `text`
pub uninterp spec fn regex_finds(pattern: Seq<char>, text: Seq<char>) -> bool;

/// Relies on `regex::Regex::new` and `regex::Regex::is_match`: compiles `pattern` and searches
/// `text` with it. A pattern that does not compile matches nothing.
#[verifier::external_body]
pub(crate) fn regex_is_match(pattern: &str, text: &str) -> (r: bool)
    ensures
        r == regex_finds(pattern@, text@),
{
    match regex::Regex::new(pattern) {
        Ok(re) => re.is_match(text),
        Err(_) => false,
    }
}

/// Whether two string slices hold the same characters
pub fn str_equal(a: &str, b: &str) -> (r: bool)
    ensures
        r == (a@ == b@),
{
    let x = chars_of(a);
    let y = chars_of(b);
    if x.len() != y.len() {
        return false;
    }
    let mut i: usize = 0;
    while i < x.len()
        invariant
            x@ == a@,
            y@ == b@,
            x@.len() == y@.len(),
            i <= x@.len(),
            forall|k: int| 0 <= k < i ==> x@[k] == y@[k],
        decreases x@.len() - i,
    {
        if x[i] != y[i] {
            return false;
        }
        i = i + 1;
    }
    assert(x@ =~= y@);
    true
}

/// Relies on `String::push`: appends one character.
#[verifier::external_body]
pub(crate) fn push_char(s: &mut String, c: char)
    ensures
        final(s)@ == old(s)@.push(c),
{
    s.push(c);
}

/// The characters of `s`, in order
pub fn chars_of(s: &str) -> (r: Vec<char>)
    ensures
        r@ == s@,
{
    broadcast use vstd::string::axiom_spec_iter;

    let mut r: Vec<char> = Vec::new();
    for c in it: s.chars()
        invariant
            r@ == it.history(),
    {
        r.push(c);
    }
    proof {
        assert(r@ =~= s@);
    }
    r
}

/// A string holding the characters of `v`
pub fn string_of(v: &[char]) -> (r: String)
    ensures
        r@ == v@,
{
    let mut r = String::new();
    let mut i: usize = 0;
    while i < v.len()
        invariant
            i <= v@.len(),
            r@ == v@.take(i as int),
        decreases v@.len() - i,
    {
        push_char(&mut r, v[i]);
        i = i + 1;
        proof {
            assert(r@ =~= v@.take(i as int));
        }
    }
    proof {
        assert(v@.take(v@.len() as int) =~= v@);
    }
    r
}

/// Relies on `String::push_str`: appends a string slice.
#[verifier::external_body]
pub(crate) fn push_str(s: &mut String, t: &str)
    ensures
        final(s)@ == old(s)@ + t@,
{
    s.push_str(t);
}

/// What `textwrap::dedent` gives for `s`: the same lines, where lines of whitespace only become
/// empty and the others lose one common whitespace prefix (which a whitespace-only line can
/// shorten)
pub uninterp spec fn dedent_of(s: Seq<char>) -> Seq<char>;

/// Relies on `textwrap::dedent`: its result depends on the text alone.
#[verifier::external_body]
pub(crate) fn dedent(s: &str) -> (r: String)
    ensures
        r@ == dedent_of(s@),
{
    textwrap::dedent(s)
}

/// Characters with the Unicode `White_Space` property
pub open spec fn is_white(c: char) -> bool {
    ('\u{9}' <= c && c <= '\u{d}') || c == ' ' || c == '\u{85}' || c == '\u{a0}' || c
        == '\u{1680}' || ('\u{2000}' <= c && c <= '\u{200a}') || c == '\u{2028}' || c
        == '\u{2029}' || c == '\u{202f}' || c == '\u{205f}' || c == '\u{3000}'
}

/// Whether `c` is whitespace in Unicode's sense
pub fn is_whitespace(c: char) -> (r: bool)
    ensures
        r == is_white(c),
{
    ('\u{9}' <= c && c <= '\u{d}') || c == ' ' || c == '\u{85}' || c == '\u{a0}' || c
        == '\u{1680}' || ('\u{2000}' <= c && c <= '\u{200a}') || c == '\u{2028}' || c
        == '\u{2029}' || c == '\u{202f}' || c == '\u{205f}' || c == '\u{3000}'
}

/// End of the run of whitespace in `s` that starts at `i`
pub open spec fn white_run_end(s: Seq<char>, i: int) -> int
    decreases s.len() - i,
{
    if 0 <= i < s.len() && is_white(s[i]) {
        white_run_end(s, i + 1)
    } else {
        i
    }
}

/// Start of the run of whitespace in `s` that ends at `j`
pub open spec fn white_run_start(s: Seq<char>, j: int) -> int
    decreases j,
{
    if 0 < j <= s.len() && is_white(s[j - 1]) {
        white_run_start(s, j - 1)
    } else {
        j
    }
}

/// `s` without its leading and trailing whitespace
pub open spec fn trimmed(s: Seq<char>) -> Seq<char> {
    let start = white_run_end(s, 0);
    if start >= s.len() {
        Seq::empty()
    } else {
        s.subrange(start, white_run_start(s, s.len() as int))
    }
}

pub proof fn lemma_white_run_start_above(s: Seq<char>, j: int, k: int)
    requires
        0 <= k < j <= s.len(),
        !is_white(s[k]),
    ensures
        k < white_run_start(s, j) <= j,
    decreases j,
{
    if is_white(s[j - 1]) {
        lemma_white_run_start_above(s, j - 1, k);
    }
}

/// `s` without its leading and trailing whitespace
pub fn trim(s: &[char]) -> (r: Vec<char>)
    ensures
        r@ == trimmed(s@),
{
    let mut start: usize = 0;
    while start < s.len() && is_whitespace(s[start])
        invariant
            start <= s@.len(),
            white_run_end(s@, 0) == white_run_end(s@, start as int),
        decreases s@.len() - start,
    {
        start = start + 1;
    }
    if start == s.len() {
        return Vec::new();
    }
    let mut end: usize = s.len();
    proof {
        lemma_white_run_start_above(s@, end as int, start as int);
    }
    while end > start && is_whitespace(s[end - 1])
        invariant
            start < s@.len(),
            !is_white(s@[start as int]),
            start <= end <= s@.len(),
            white_run_start(s@, s@.len() as int) == white_run_start(s@, end as int),
            start < white_run_start(s@, s@.len() as int),
            white_run_start(s@, end as int) <= end,
        decreases end,
    {
        end = end - 1;
        proof {
            lemma_white_run_start_above(s@, end as int, start as int);
        }
    }
    assert(start == white_run_end(s@, 0));
    let mut r: Vec<char> = Vec::new();
    let mut i: usize = start;
    while i < end
        invariant
            start <= i <= end <= s@.len(),
            r@ == s@.subrange(start as int, i as int),
        decreases end - i,
    {
        r.push(s[i]);
        i = i + 1;
        proof {
            assert(r@ =~= s@.subrange(start as int, i as int));
        }
    }
    r
}

/// `line` without one `\r` at its end
pub open spec fn without_cr(line: Seq<char>) -> Seq<char> {
    if line.len() > 0 && line.last() == '\r' {
        line.drop_last()
    } else {
        line
    }
}

/// The lines of `s[start..]`, where the current line began at `start` and the search for its end
/// stands at `i`
pub open spec fn lines_from(s: Seq<char>, start: int, i: int) -> Seq<Seq<char>>
    decreases s.len() - i,
{
    if i >= s.len() || i < start || start < 0 {
        seq![s.subrange(start, s.len() as int)]
    } else if s[i] == '\n' {
        seq![without_cr(s.subrange(start, i))] + lines_from(s, i + 1, i + 1)
    } else {
        lines_from(s, start, i + 1)
    }
}

/// The lines of `s`, as `str::lines` gives them: the pieces between line feeds, each without the
/// carriage return that may end it, and no empty last piece after a final line feed
pub open spec fn split_lines(s: Seq<char>) -> Seq<Seq<char>> {
    let pieces = lines_from(s, 0, 0);
    if pieces.len() > 0 && pieces.last().len() == 0 {
        pieces.drop_last()
    } else {
        pieces
    }
}

/// Splits `s` into lines
pub fn lines(s: &[char]) -> (r: Vec<Vec<char>>)
    ensures
        r@.map_values(|l: Vec<char>| l@) == split_lines(s@),
{
    let mut r: Vec<Vec<char>> = Vec::new();
    let mut current: Vec<char> = Vec::new();
    let mut start: usize = 0;
    let mut i: usize = 0;
    while i < s.len()
        invariant
            start <= i <= s@.len(),
            current@ == s@.subrange(start as int, i as int),
            r@.map_values(|l: Vec<char>| l@) + lines_from(s@, start as int, i as int)
                == lines_from(s@, 0, 0),
        decreases s@.len() - i,
    {
        if s[i] == '\n' {
            let ghost before = r@.map_values(|l: Vec<char>| l@);
            let mut line = current;
            let n = line.len();
            if n > 0 && line[n - 1] == '\r' {
                line.pop();
            }
            assert(line@ == without_cr(s@.subrange(start as int, i as int)));
            r.push(line);
            current = Vec::new();
            i = i + 1;
            start = i;
            proof {
                assert(r@.map_values(|l: Vec<char>| l@) =~= before.push(line@));
                assert(current@ =~= s@.subrange(start as int, i as int));
            }
        } else {
            current.push(s[i]);
            i = i + 1;
            proof {
                assert(current@ =~= s@.subrange(start as int, i as int));
            }
        }
    }
    let ghost before = r@.map_values(|l: Vec<char>| l@);
    proof {
        assert(lines_from(s@, start as int, i as int) == seq![current@]);
        let pieces = lines_from(s@, 0, 0);
        assert(pieces =~= before.push(current@));
        assert(pieces.drop_last() =~= before);
    }
    if current.len() > 0 {
        r.push(current);
        proof {
            assert(r@.map_values(|l: Vec<char>| l@) =~= before.push(current@));
        }
    }
    r
}

/// The lines joined with line feeds
pub open spec fn join_lines(ls: Seq<Seq<char>>) -> Seq<char>
    decreases ls.len(),
{
    if ls.len() == 0 {
        Seq::empty()
    } else if ls.len() == 1 {
        ls[0]
    } else {
        join_lines(ls.drop_last()) + seq!['\n'] + ls.last()
    }
}

/// Joins the lines `ls[from..]` with line feeds
pub fn join(ls: &Vec<Vec<char>>, from: usize) -> (r: Vec<char>)
    requires
        from <= ls@.len(),
    ensures
        r@ == join_lines(ls@.map_values(|l: Vec<char>| l@).skip(from as int)),
{
    let ghost views = ls@.map_values(|l: Vec<char>| l@);
    let mut r: Vec<char> = Vec::new();
    let mut i: usize = from;
    while i < ls.len()
        invariant
            from <= i <= ls@.len(),
            views == ls@.map_values(|l: Vec<char>| l@),
            r@ == join_lines(views.subrange(from as int, i as int)),
        decreases ls@.len() - i,
    {
        if i > from {
            r.push('\n');
        }
        let line = &ls[i];
        let mut j: usize = 0;
        let ghost base = r@;
        while j < line.len()
            invariant
                j <= line@.len(),
                r@ == base + line@.subrange(0, j as int),
            decreases line@.len() - j,
        {
            r.push(line[j]);
            j = j + 1;
            proof {
                assert(r@ =~= base + line@.subrange(0, j as int));
            }
        }
        proof {
            let next = views.subrange(from as int, i + 1);
            assert(next.drop_last() =~= views.subrange(from as int, i as int));
            assert(line@.subrange(0, j as int) =~= line@);
            assert(next.last() == line@);
            if i == from {
                assert(next.len() == 1);
            }
        }
        i = i + 1;
    }
    proof {
        assert(views.subrange(from as int, ls@.len() as int) =~= views.skip(from as int));
    }
    r
}

} // verus!
