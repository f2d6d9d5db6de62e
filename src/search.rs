use vstd::prelude::*;

use crate::text::{chars_to_string, string_chars};

verus! {

/// Unicode's White_Space property: tab through carriage return, space, next
/// line, no-break space, ogham space mark, the spaces from en quad to hair
/// space, line and paragraph separators, narrow no-break space, medium
/// mathematical space and ideographic space.
pub open spec fn white_space(c: char) -> bool {
    let u = c as u32;
    (0x9 <= u <= 0xd) || u == 0x20 || u == 0x85 || u == 0xa0 || u == 0x1680 || (0x2000 <= u <= 0x200a)
        || u == 0x2028 || u == 0x2029 || u == 0x202f || u == 0x205f || u == 0x3000
}

/// The lower-case mapping of a text, as `str::to_lowercase` computes it.
pub uninterp spec fn lower_of(s: Seq<char>) -> Seq<char>;

/// Whether `c` has Unicode's White_Space property.
pub fn is_white_space(c: char) -> (r: bool)
    ensures
        r == white_space(c),
{
    let u = c as u32;
    (0x9 <= u && u <= 0xd) || u == 0x20 || u == 0x85 || u == 0xa0 || u == 0x1680 || (0x2000 <= u
        && u <= 0x200a) || u == 0x2028 || u == 0x2029 || u == 0x202f || u == 0x205f || u == 0x3000
}

/// Relies on `str::to_lowercase`: the result depends on the characters alone.
#[verifier::external_body]
fn to_lower(s: &str) -> (r: String)
    ensures
        r@ == lower_of(s@),
{
    s.to_lowercase()
}

/// The lower-case mapping of `s`, as characters.
fn lowercase(s: &str) -> (r: Vec<char>)
    ensures
        r@ == lower_of(s@),
{
    let l = to_lower(s);
    string_chars(l.as_str())
}

/// One line found by a content search.
pub struct GitGrepMatch {
    pub file: String,
    pub line: usize,
    pub column: usize,
    pub content: String,
}

/// The first index at or after `i` where `s` holds `c`, or the length of `s`.
pub open spec fn find_char(s: Seq<char>, c: char, i: nat) -> nat
    decreases s.len() - i,
{
    if i >= s.len() {
        s.len()
    } else if s[i as int] == c {
        i
    } else {
        find_char(s, c, i + 1)
    }
}

pub open spec fn is_digit(c: char) -> bool {
    '0' <= c <= '9'
}

/// The number written by the decimal digits `s`.
pub open spec fn digits_value(s: Seq<char>) -> nat
    decreases s.len(),
{
    if s.len() == 0 {
        0
    } else {
        digits_value(s.drop_last()) * 10 + ((s.last() as u32) - ('0' as u32)) as nat
    }
}

/// `s` without a leading `+`.
pub open spec fn unsigned_part(s: Seq<char>) -> Seq<char> {
    if s.len() > 0 && s[0] == '+' {
        s.subrange(1, s.len() as int)
    } else {
        s
    }
}

pub open spec fn all_digits(d: Seq<char>) -> bool {
    forall|k: int| 0 <= k < d.len() ==> is_digit(#[trigger] d[k])
}

/// What reading `s` as a `usize` gives: an optional `+`, then one or more
/// decimal digits whose value fits.
pub open spec fn parsed_usize(s: Seq<char>) -> Option<usize> {
    let d = unsigned_part(s);
    if d.len() > 0 && all_digits(d) && digits_value(d) <= usize::MAX {
        Some(digits_value(d) as usize)
    } else {
        None
    }
}

/// `s` without the white space at either end.
pub open spec fn trimmed(s: Seq<char>) -> Seq<char> {
    let a = lead(s, 0);
    let b = trail(s, s.len());
    if a < b {
        s.subrange(a as int, b as int)
    } else {
        Seq::empty()
    }
}

/// The first index at or after `i` that is not white space, or the length.
pub open spec fn lead(s: Seq<char>, i: nat) -> nat
    decreases s.len() - i,
{
    if i >= s.len() {
        s.len()
    } else if white_space(s[i as int]) {
        lead(s, i + 1)
    } else {
        i
    }
}

/// The end of `s[..j]` without the white space at its end.
pub open spec fn trail(s: Seq<char>, j: nat) -> nat
    decreases j,
{
    if j == 0 || j > s.len() {
        0
    } else if white_space(s[j - 1]) {
        trail(s, (j - 1) as nat)
    } else {
        j
    }
}

/// The fields of a line `file:line:column:content` split at its first three
/// colons, if it has three.
pub open spec fn grep_fields(s: Seq<char>) -> Option<(Seq<char>, Seq<char>, Seq<char>, Seq<char>)> {
    let i1 = find_char(s, ':', 0);
    let i2 = find_char(s, ':', i1 + 1);
    let i3 = find_char(s, ':', i2 + 1);
    if i3 < s.len() {
        Some(
            (
                s.subrange(0, i1 as int),
                s.subrange((i1 + 1) as int, i2 as int),
                s.subrange((i2 + 1) as int, i3 as int),
                s.subrange((i3 + 1) as int, s.len() as int),
            ),
        )
    } else {
        None
    }
}

proof fn lemma_find_char_bounds(s: Seq<char>, c: char, i: nat)
    ensures
        find_char(s, c, i) <= s.len(),
        i <= s.len() ==> i <= find_char(s, c, i),
        find_char(s, c, i) < s.len() ==> s[find_char(s, c, i) as int] == c,
    decreases s.len() - i,
{
    if i < s.len() && s[i as int] != c {
        lemma_find_char_bounds(s, c, i + 1);
    }
}

fn find_char_at(s: &Vec<char>, c: char, i: usize) -> (r: usize)
    requires
        i <= s@.len(),
    ensures
        r == find_char(s@, c, i as nat),
{
    let mut j = i;
    while j < s.len() && s[j] != c
        invariant
            i <= j <= s@.len(),
            find_char(s@, c, j as nat) == find_char(s@, c, i as nat),
        decreases s@.len() - j,
    {
        j = j + 1;
    }
    j
}

fn copy_range(s: &Vec<char>, a: usize, b: usize) -> (r: Vec<char>)
    requires
        a <= b <= s@.len(),
    ensures
        r@ == s@.subrange(a as int, b as int),
{
    let mut r: Vec<char> = Vec::new();
    let mut k = a;
    while k < b
        invariant
            a <= k <= b <= s@.len(),
            r@ == s@.subrange(a as int, k as int),
        decreases b - k,
    {
        r.push(s[k]);
        k = k + 1;
        assert(r@ =~= s@.subrange(a as int, k as int));
    }
    r
}

/// Reads `s` as a `usize`, as `str::parse` does.
pub fn parse_usize(s: &Vec<char>) -> (r: Option<usize>)
    ensures
        r == parsed_usize(s@),
{
    let n = s.len();
    let start: usize = if n > 0 && s[0] == '+' {
        1
    } else {
        0
    };
    let ghost d = unsigned_part(s@);
    if start == n {
        return None;
    }
    proof {
        assert(d =~= s@.subrange(start as int, n as int));
    }
    let mut value: usize = 0;
    let mut k = start;
    while k < n
        invariant
            start <= k <= n == s@.len(),
            start < n,
            d == s@.subrange(start as int, n as int),
            d == unsigned_part(s@),
            value == digits_value(s@.subrange(start as int, k as int)),
            forall|j: int| start <= j < k ==> is_digit(#[trigger] s@[j]),
        decreases n - k,
    {
        let c = s[k];
        proof {
            assert(s@.subrange(start as int, k + 1).drop_last() =~= s@.subrange(start as int, k as int));
            assert(s@.subrange(start as int, k + 1).last() == c);
        }
        if !('0' <= c && c <= '9') {
            proof {
                assert(d[k - start] == c);
                assert(!is_digit(d[k - start]));
                assert(!all_digits(d));
            }
            return None;
        }
        let digit = (c as u32 - '0' as u32) as usize;
        let next = match value.checked_mul(10) {
            Some(v) => v.checked_add(digit),
            None => None,
        };
        match next {
            Some(v) => {
                value = v;
            },
            None => {
                proof {
                    assert(digits_value(s@.subrange(start as int, k + 1)) == value * 10 + digit);
                    assert(value * 10 + digit > usize::MAX);
                    if all_digits(d) {
                        lemma_digits_grow(d, (k + 1 - start) as nat);
                        assert(d.subrange(0, (k + 1 - start) as int) =~= s@.subrange(start as int, k + 1));
                    }
                }
                return None;
            },
        }
        k = k + 1;
    }
    proof {
        assert(s@.subrange(start as int, n as int) =~= d);
    }
    Some(value)
}

/// The value of a run of digits is at least that of any of its prefixes.
proof fn lemma_digits_grow(d: Seq<char>, m: nat)
    requires
        m <= d.len(),
        forall|k: int| 0 <= k < d.len() ==> is_digit(#[trigger] d[k]),
    ensures
        digits_value(d.subrange(0, m as int)) <= digits_value(d),
    decreases d.len() - m,
{
    if m < d.len() {
        lemma_digits_grow(d.drop_last(), m);
        assert(d.drop_last().subrange(0, m as int) =~= d.subrange(0, m as int));
        if m == d.len() - 1 {
            assert(d.drop_last() =~= d.subrange(0, m as int));
        }
    } else {
        assert(d.subrange(0, m as int) =~= d);
    }
}

/// `s` without the white space at either end.
pub fn trim_chars(s: &Vec<char>) -> (r: Vec<char>)
    ensures
        r@ == trimmed(s@),
{
    let n = s.len();
    let mut a: usize = 0;
    while a < n && is_white_space(s[a])
        invariant
            a <= n == s@.len(),
            lead(s@, a as nat) == lead(s@, 0),
        decreases n - a,
    {
        a = a + 1;
    }
    let mut b: usize = n;
    while b > 0 && is_white_space(s[b - 1])
        invariant
            b <= n == s@.len(),
            trail(s@, b as nat) == trail(s@, n as nat),
        decreases b,
    {
        b = b - 1;
    }
    if a < b {
        copy_range(s, a, b)
    } else {
        Vec::new()
    }
}

/// Whether `s` holds nothing but white space.
pub fn is_blank(s: &str) -> (r: bool)
    ensures
        r == (trimmed(s@).len() == 0),
{
    let c = string_chars(s);
    trim_chars(&c).len() == 0
}

/// Reads one line of `git grep -n --column` output, `file:line:column:content`;
/// the content is trimmed.
pub fn parse_git_grep_line(line: &str) -> (r: Option<GitGrepMatch>)
    ensures
        r is None <==> (grep_fields(line@) is None || ({
            let (f, l, c, t) = grep_fields(line@)->0;
            parsed_usize(l) is None || parsed_usize(c) is None
        })),
        r matches Some(m) ==> {
            let (f, l, c, t) = grep_fields(line@)->0;
            &&& m.file@ == f
            &&& Some(m.line) == parsed_usize(l)
            &&& Some(m.column) == parsed_usize(c)
            &&& m.content@ == trimmed(t)
        },
{
    let s = string_chars(line);
    let n = s.len();
    let i1 = find_char_at(&s, ':', 0);
    proof {
        lemma_find_char_bounds(s@, ':', 0);
    }
    if i1 >= n {
        return None;
    }
    let i2 = find_char_at(&s, ':', i1 + 1);
    proof {
        lemma_find_char_bounds(s@, ':', (i1 + 1) as nat);
    }
    if i2 >= n {
        return None;
    }
    let i3 = find_char_at(&s, ':', i2 + 1);
    proof {
        lemma_find_char_bounds(s@, ':', (i2 + 1) as nat);
    }
    if i3 >= n {
        return None;
    }
    let file = copy_range(&s, 0, i1);
    let line_str = copy_range(&s, i1 + 1, i2);
    let column_str = copy_range(&s, i2 + 1, i3);
    let content = copy_range(&s, i3 + 1, n);
    let line_num = match parse_usize(&line_str) {
        Some(v) => v,
        None => return None,
    };
    let column = match parse_usize(&column_str) {
        Some(v) => v,
        None => return None,
    };
    let trimmed_content = trim_chars(&content);
    Some(
        GitGrepMatch {
            file: chars_to_string(&file),
            line: line_num,
            column,
            content: chars_to_string(&trimmed_content),
        },
    )
}

/// The most results one search hands back.
pub const MAX_RESULTS: usize = 100;

/// The line reads as a match.
pub open spec fn readable(line: Seq<char>) -> bool {
    grep_fields(line) matches Some((f, l, c, t)) && parsed_usize(l) is Some && parsed_usize(c) is Some
}

/// The indices of the lines that read as matches, in order.
pub open spec fn readable_lines(lines: Seq<String>) -> Seq<int>
    decreases lines.len(),
{
    if lines.len() == 0 {
        Seq::empty()
    } else {
        let m = readable_lines(lines.drop_last());
        if readable(lines.last()@) {
            m.push(lines.len() - 1)
        } else {
            m
        }
    }
}

/// `m` is what reading `line` as a match gives.
pub open spec fn parse_git_grep_line_spec(m: GitGrepMatch, line: Seq<char>) -> bool {
    grep_fields(line) matches Some((f, l, c, t)) && m.file@ == f && Some(m.line) == parsed_usize(l)
        && Some(m.column) == parsed_usize(c) && m.content@ == trimmed(t)
}

proof fn lemma_readable_prefix(ls: Seq<String>, j: int)
    requires
        0 <= j <= ls.len(),
    ensures
        readable_lines(ls.subrange(0, j)).len() <= readable_lines(ls).len(),
        forall|i: int|
            0 <= i < readable_lines(ls.subrange(0, j)).len() ==> #[trigger] readable_lines(ls)[i]
                == readable_lines(ls.subrange(0, j))[i],
    decreases ls.len() - j,
{
    if j == ls.len() {
        assert(ls.subrange(0, j) =~= ls);
    } else {
        lemma_readable_prefix(ls, j + 1);
        assert(ls.subrange(0, j + 1).drop_last() =~= ls.subrange(0, j));
    }
}

/// The matches that `lines` hold, in order, at most `MAX_RESULTS` of them;
/// lines that do not read as a match are skipped.
pub fn collect_grep_matches(lines: &Vec<String>) -> (r: Vec<GitGrepMatch>)
    ensures
        r@.len() == if readable_lines(lines@).len() < MAX_RESULTS {
            readable_lines(lines@).len()
        } else {
            MAX_RESULTS as nat
        },
        forall|i: int|
            0 <= i < r@.len() ==> parse_git_grep_line_spec(
                #[trigger] r@[i],
                lines@[readable_lines(lines@)[i]]@,
            ),
{
    let mut r: Vec<GitGrepMatch> = Vec::new();
    let n = lines.len();
    let mut j: usize = 0;
    while j < n && r.len() < MAX_RESULTS
        invariant
            j <= n == lines@.len(),
            r@.len() <= MAX_RESULTS,
            r@.len() == readable_lines(lines@.subrange(0, j as int)).len(),
            forall|i: int|
                0 <= i < r@.len() ==> parse_git_grep_line_spec(
                    #[trigger] r@[i],
                    lines@[readable_lines(lines@.subrange(0, j as int))[i]]@,
                ),
        decreases n - j,
    {
        let ghost prefix = lines@.subrange(0, j as int);
        let ghost longer = lines@.subrange(0, j + 1);
        proof {
            assert(longer.drop_last() =~= prefix);
            assert(longer.last() == lines@[j as int]);
        }
        if let Some(m) = parse_git_grep_line(lines[j].as_str()) {
            r.push(m);
        }
        j = j + 1;
    }
    proof {
        lemma_readable_prefix(lines@, j as int);
        if j == n {
            assert(lines@.subrange(0, j as int) =~= lines@);
        }
    }
    r
}

/// Every character of `q` appears in `f`, in order.
pub open spec fn subsequence(q: Seq<char>, f: Seq<char>) -> bool
    decreases f.len(),
{
    if q.len() == 0 {
        true
    } else if f.len() == 0 {
        false
    } else if f[0] == q[0] {
        subsequence(q.drop_first(), f.drop_first())
    } else {
        subsequence(q, f.drop_first())
    }
}

/// `n` occurs in `h` as a run of consecutive characters.
pub open spec fn contains_run(h: Seq<char>, n: Seq<char>) -> bool {
    exists|i: int| 0 <= i && i + n.len() <= h.len() && #[trigger] h.subrange(i, i + n.len()) == n
}

/// The part of a path after its last `/`.
pub open spec fn file_name(f: Seq<char>) -> Seq<char>
    decreases f.len(),
{
    if f.len() == 0 {
        f
    } else if f.last() == '/' {
        Seq::empty()
    } else {
        file_name(f.drop_last()).push(f.last())
    }
}

/// A listed file passes the query: the query is blank, or, case folded, its
/// characters appear in the file's path in order.
pub open spec fn passes(query: Seq<char>, file: Seq<char>) -> bool {
    trimmed(query).len() == 0 || subsequence(lower_of(query), lower_of(file))
}

/// The first `MAX_RESULTS` files that pass the query, in listing order.
pub open spec fn passing(files: Seq<String>, query: Seq<char>) -> Seq<String>
    decreases files.len(),
{
    if files.len() == 0 {
        Seq::empty()
    } else {
        let m = passing(files.drop_last(), query);
        if m.len() < MAX_RESULTS && passes(query, files.last()@) {
            m.push(files.last())
        } else {
            m
        }
    }
}

/// The query, case folded, occurs in the file's name, case folded; an empty
/// query occurs everywhere.
pub open spec fn named_by(query_lower: Seq<char>, file: Seq<char>) -> bool {
    query_lower.len() == 0 || contains_run(lower_of(file_name(file)), query_lower)
}

/// The passing files, those named by the query first, each group in listing
/// order.
pub open spec fn ranked(files: Seq<String>, query: Seq<char>) -> Seq<String> {
    let p = passing(files, query);
    p.filter(|f: String| named_by(lower_of(query), f@)) + p.filter(
        |f: String| !named_by(lower_of(query), f@),
    )
}

/// Whether the characters of `q` appear in `f` in order.
pub fn fuzzy_match(q: &Vec<char>, f: &Vec<char>) -> (r: bool)
    ensures
        r == subsequence(q@, f@),
{
    let mut i: usize = 0;
    let mut j: usize = 0;
    proof {
        assert(q@.subrange(0, q@.len() as int) =~= q@);
        assert(f@.subrange(0, f@.len() as int) =~= f@);
    }
    while i < q.len() && j < f.len()
        invariant
            i <= q@.len(),
            j <= f@.len(),
            subsequence(q@.subrange(i as int, q@.len() as int), f@.subrange(j as int, f@.len() as int))
                == subsequence(q@, f@),
        decreases f@.len() - j,
    {
        proof {
            let qs = q@.subrange(i as int, q@.len() as int);
            let fs = f@.subrange(j as int, f@.len() as int);
            assert(qs.drop_first() =~= q@.subrange(i + 1, q@.len() as int));
            assert(fs.drop_first() =~= f@.subrange(j + 1, f@.len() as int));
        }
        if f[j] == q[i] {
            i = i + 1;
        }
        j = j + 1;
    }
    proof {
        assert(q@.subrange(i as int, q@.len() as int).len() == q@.len() - i);
    }
    i == q.len()
}

/// Whether `n` occurs in `h` as a run of consecutive characters.
pub fn contains_chars(h: &Vec<char>, n: &Vec<char>) -> (r: bool)
    ensures
        r == contains_run(h@, n@),
{
    if n.len() > h.len() {
        return false;
    }
    let last = h.len() - n.len();
    let mut i: usize = 0;
    while i <= last
        invariant
            last == h@.len() - n@.len(),
            n@.len() <= h@.len() <= usize::MAX,
            forall|k: int| 0 <= k < i ==> #[trigger] h@.subrange(k, k + n@.len()) != n@,
        decreases last + 1 - i,
    {
        let mut k: usize = 0;
        while k < n.len() && h[i + k] == n[k]
            invariant
                i <= last,
                n@.len() <= h@.len() <= usize::MAX,
                last == h@.len() - n@.len(),
                k <= n@.len(),
                forall|m: int| 0 <= m < k ==> h@[i + m] == n@[m],
            decreases n@.len() - k,
        {
            k = k + 1;
        }
        if k == n.len() {
            proof {
                assert(h@.subrange(i as int, i + n@.len()) =~= n@);
            }
            return true;
        }
        proof {
            assert(h@.subrange(i as int, i + n@.len())[k as int] != n@[k as int]);
        }
        if i == last {
            return false;
        }
        i = i + 1;
    }
    false
}

/// The part of a path after its last `/`.
pub fn file_name_of(f: &Vec<char>) -> (r: Vec<char>)
    ensures
        r@ == file_name(f@),
{
    let n = f.len();
    let mut s: usize = n;
    while s > 0 && f[s - 1] != '/'
        invariant
            s <= n == f@.len(),
            forall|k: int| s <= k < n ==> f@[k] != '/',
        decreases s,
    {
        s = s - 1;
    }
    proof {
        lemma_file_name(f@, s as nat);
    }
    copy_range(f, s, n)
}

proof fn lemma_file_name(f: Seq<char>, s: nat)
    requires
        s <= f.len(),
        s == 0 || f[s - 1] == '/',
        forall|k: int| s <= k < f.len() ==> f[k] != '/',
    ensures
        file_name(f) == f.subrange(s as int, f.len() as int),
    decreases f.len(),
{
    if f.len() > s {
        lemma_file_name(f.drop_last(), s);
        assert(f.subrange(s as int, f.len() as int) =~= f.drop_last().subrange(s as int, f.len() - 1).push(
            f.last(),
        ));
    } else if s > 0 {
        assert(f.last() == '/');
        assert(f.subrange(s as int, f.len() as int) =~= Seq::<char>::empty());
    } else {
        assert(f.subrange(s as int, f.len() as int) =~= f);
    }
}

/// Keeps the listed files that pass the query, at most `MAX_RESULTS`, and puts
/// those whose name holds the query first.
pub fn filter_files(files: &Vec<String>, query: &str) -> (r: Vec<String>)
    ensures
        r@ == ranked(files@, query@),
{
    let blank = is_blank(query);
    let ql = lowercase(query);
    let mut kept: Vec<String> = Vec::new();
    let n = files.len();
    let mut j: usize = 0;
    while j < n
        invariant
            j <= n == files@.len(),
            blank == (trimmed(query@).len() == 0),
            ql@ == lower_of(query@),
            kept@ == passing(files@.subrange(0, j as int), query@),
        decreases n - j,
    {
        let ghost prefix = files@.subrange(0, j as int);
        let ghost longer = files@.subrange(0, j + 1);
        proof {
            assert(longer.drop_last() =~= prefix);
            assert(longer.last() == files@[j as int]);
        }
        if kept.len() < MAX_RESULTS {
            let keep = blank || {
                let fl = lowercase(files[j].as_str());
                fuzzy_match(&ql, &fl)
            };
            if keep {
                kept.push(files[j].clone());
            }
        }
        j = j + 1;
    }
    proof {
        assert(files@.subrange(0, n as int) =~= files@);
    }
    let mut first: Vec<String> = Vec::new();
    let mut rest: Vec<String> = Vec::new();
    let m = kept.len();
    let mut i: usize = 0;
    while i < m
        invariant
            i <= m == kept@.len(),
            ql@ == lower_of(query@),
            first@ == kept@.subrange(0, i as int).filter(|f: String| named_by(lower_of(query@), f@)),
            rest@ == kept@.subrange(0, i as int).filter(|f: String| !named_by(lower_of(query@), f@)),
        decreases m - i,
    {
        let name = file_name_of(&string_chars(kept[i].as_str()));
        let named = ql.len() == 0 || contains_chars(&lowercase_chars(&name), &ql);
        proof {
            assert(kept@.subrange(0, i + 1).drop_last() =~= kept@.subrange(0, i as int));
            assert(kept@.subrange(0, i + 1).last() == kept@[i as int]);
            reveal(Seq::filter);
        }
        if named {
            first.push(kept[i].clone());
        } else {
            rest.push(kept[i].clone());
        }
        i = i + 1;
    }
    proof {
        assert(kept@.subrange(0, m as int) =~= kept@);
    }
    first.append(&mut rest);
    first
}

/// The lower-case mapping of `s`.
fn lowercase_chars(s: &Vec<char>) -> (r: Vec<char>)
    ensures
        r@ == lower_of(s@),
{
    let t = chars_to_string(s);
    lowercase(t.as_str())
}

} // verus!
