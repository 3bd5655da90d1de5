//! Character-level text handling for procfs and tool output: line splitting,
//! whitespace tokenisation, trimming, splitting at a character and decimal
//! counters, each specified as the standard string methods behave on `str`.
use vstd::prelude::*;

verus! {

broadcast use vstd::string::group_string_axioms;

/// The views of a sequence of character vectors.
pub open spec fn views(v: Seq<Vec<char>>) -> Seq<Seq<char>> {
    v.map_values(|x: Vec<char>| x@)
}

/// Unicode `White_Space`, as `char::is_whitespace` decides it.
pub open spec fn is_whitespace(c: char) -> bool {
    let u = c as u32;
    ||| u == 0x20
    ||| 0x09 <= u <= 0x0d
    ||| u == 0x85
    ||| u == 0xa0
    ||| u == 0x1680
    ||| 0x2000 <= u <= 0x200a
    ||| u == 0x2028
    ||| u == 0x2029
    ||| u == 0x202f
    ||| u == 0x205f
    ||| u == 0x3000
}

/// Index of the first `'\n'` at or after `i`, or the length when there is none.
pub open spec fn line_end(s: Seq<char>, i: int) -> int
    decreases s.len() - i,
{
    if i >= s.len() {
        s.len() as int
    } else if s[i] == '\n' {
        i
    } else {
        line_end(s, i + 1)
    }
}

/// A line without its terminating carriage return, if any.
pub open spec fn strip_cr(x: Seq<char>) -> Seq<char> {
    if x.len() > 0 && x.last() == '\r' {
        x.drop_last()
    } else {
        x
    }
}

/// The lines of `s` from index `i` on, as `str::lines` yields them: pieces
/// ended by `'\n'` (the `'\n'` and a `'\r'` before it removed), then the
/// unterminated rest if it is not empty.
pub open spec fn lines_from(s: Seq<char>, i: int) -> Seq<Seq<char>>
    decreases s.len() - i,
{
    if i < 0 || i >= s.len() {
        seq![]
    } else {
        let j = line_end(s, i);
        proof {
            lemma_line_end(s, i);
        }
        let raw = s.subrange(i, j);
        if j < s.len() {
            seq![strip_cr(raw)] + lines_from(s, j + 1)
        } else {
            seq![raw]
        }
    }
}

/// `str::lines`.
pub open spec fn lines(s: Seq<char>) -> Seq<Seq<char>> {
    lines_from(s, 0)
}

/// Index of the first whitespace character at or after `i`, or the length.
pub open spec fn word_end(x: Seq<char>, i: int) -> int
    decreases x.len() - i,
{
    if i >= x.len() {
        x.len() as int
    } else if is_whitespace(x[i]) {
        i
    } else {
        word_end(x, i + 1)
    }
}

/// The maximal runs of non-whitespace characters of `x` from index `i` on.
pub open spec fn words_from(x: Seq<char>, i: int) -> Seq<Seq<char>>
    decreases x.len() - i,
{
    if i < 0 || i >= x.len() {
        seq![]
    } else if is_whitespace(x[i]) {
        words_from(x, i + 1)
    } else {
        let j = word_end(x, i);
        proof {
            lemma_word_end(x, i + 1);
        }
        seq![x.subrange(i, j)] + words_from(x, j)
    }
}

/// `str::split_whitespace`.
pub open spec fn words(x: Seq<char>) -> Seq<Seq<char>> {
    words_from(x, 0)
}

/// `x` without its leading whitespace.
pub open spec fn trim_start(x: Seq<char>) -> Seq<char>
    decreases x.len(),
{
    if x.len() > 0 && is_whitespace(x[0]) {
        trim_start(x.drop_first())
    } else {
        x
    }
}

/// `x` without its trailing whitespace.
pub open spec fn trim_end(x: Seq<char>) -> Seq<char>
    decreases x.len(),
{
    if x.len() > 0 && is_whitespace(x.last()) {
        trim_end(x.drop_last())
    } else {
        x
    }
}

/// `str::trim`.
pub open spec fn trim(x: Seq<char>) -> Seq<char> {
    trim_end(trim_start(x))
}

/// Index of the first `c` at or after `i`.
pub open spec fn find_char_from(x: Seq<char>, c: char, i: int) -> Option<int>
    decreases x.len() - i,
{
    if i < 0 || i >= x.len() {
        None
    } else if x[i] == c {
        Some(i)
    } else {
        find_char_from(x, c, i + 1)
    }
}

/// `str::split_once` at the first `c`.
pub open spec fn split_once(x: Seq<char>, c: char) -> Option<(Seq<char>, Seq<char>)> {
    match find_char_from(x, c, 0) {
        Some(k) => Some((x.subrange(0, k), x.subrange(k + 1, x.len() as int))),
        None => None,
    }
}

/// `str::starts_with`.
pub open spec fn starts_with(x: Seq<char>, prefix: Seq<char>) -> bool {
    prefix.len() <= x.len() && x.subrange(0, prefix.len() as int) == prefix
}

pub open spec fn is_digit(c: char) -> bool {
    0x30 <= (c as u32) <= 0x39
}

pub open spec fn all_digits(d: Seq<char>) -> bool {
    forall|k: int| 0 <= k < d.len() ==> is_digit(#[trigger] d[k])
}

/// The number written by the decimal digits `d`.
pub open spec fn digits_value(d: Seq<char>) -> nat
    decreases d.len(),
{
    if d.len() == 0 {
        0
    } else {
        digits_value(d.drop_last()) * 10 + ((d.last() as u32 - 0x30) as nat)
    }
}

/// `x` without one leading `'+'`.
pub open spec fn unsigned_digits(x: Seq<char>) -> Seq<char> {
    if x.len() > 0 && x[0] == '+' {
        x.drop_first()
    } else {
        x
    }
}

/// `str::parse::<u64>`: an optional `'+'`, then one or more ASCII digits whose
/// value fits in 64 bits.
pub open spec fn parse_u64(x: Seq<char>) -> Option<u64> {
    let d = unsigned_digits(x);
    if d.len() > 0 && all_digits(d) && digits_value(d) <= u64::MAX {
        Some(digits_value(d) as u64)
    } else {
        None
    }
}

pub proof fn lemma_line_end(s: Seq<char>, i: int)
    requires
        0 <= i <= s.len(),
    ensures
        i <= line_end(s, i) <= s.len(),
        line_end(s, i) < s.len() ==> s[line_end(s, i)] == '\n',
        forall|k: int| i <= k < line_end(s, i) ==> s[k] != '\n',
    decreases s.len() - i,
{
    if i < s.len() && s[i] != '\n' {
        lemma_line_end(s, i + 1);
    }
}

pub proof fn lemma_word_end(x: Seq<char>, i: int)
    requires
        0 <= i <= x.len(),
    ensures
        i <= word_end(x, i) <= x.len(),
        word_end(x, i) < x.len() ==> is_whitespace(x[word_end(x, i)]),
        forall|k: int| i <= k < word_end(x, i) ==> !is_whitespace(x[k]),
    decreases x.len() - i,
{
    if i < x.len() && !is_whitespace(x[i]) {
        lemma_word_end(x, i + 1);
    }
}

/// `char::is_whitespace`.
pub fn char_is_whitespace(c: char) -> (b: bool)
    ensures
        b == is_whitespace(c),
{
    let u = c as u32;
    u == 0x20 || (0x09 <= u && u <= 0x0d) || u == 0x85 || u == 0xa0 || u == 0x1680 || (0x2000 <= u
        && u <= 0x200a) || u == 0x2028 || u == 0x2029 || u == 0x202f || u == 0x205f || u == 0x3000
}

/// The characters of `s`, in order.
pub fn chars_of(s: &str) -> (v: Vec<char>)
    ensures
        v@ == s@,
{
    let mut v: Vec<char> = Vec::new();
    for c in it: s.chars()
        invariant
            v@ == it.seq().take(it.index() as int),
    {
        v.push(c);
    }
    v
}

/// A copy of `s[from..to]`.
pub fn copy_range(s: &Vec<char>, from: usize, to: usize) -> (r: Vec<char>)
    requires
        from <= to <= s.len(),
    ensures
        r@ == s@.subrange(from as int, to as int),
{
    let mut r: Vec<char> = Vec::new();
    let mut i = from;
    while i < to
        invariant
            from <= i <= to <= s.len(),
            r@ == s@.subrange(from as int, i as int),
        decreases to - i,
    {
        r.push(s[i]);
        i += 1;
        assert(r@ =~= s@.subrange(from as int, i as int));
    }
    r
}

/// Character-wise equality.
pub fn same_chars(a: &Vec<char>, b: &Vec<char>) -> (eq: bool)
    ensures
        eq == (a@ == b@),
{
    if a.len() != b.len() {
        return false;
    }
    let mut i: usize = 0;
    while i < a.len()
        invariant
            a.len() == b.len(),
            i <= a.len(),
            forall|k: int| 0 <= k < i ==> a@[k] == b@[k],
        decreases a.len() - i,
    {
        if a[i] != b[i] {
            return false;
        }
        i += 1;
    }
    assert(a@ =~= b@);
    true
}

/// `x` begins with `prefix`.
pub fn has_prefix(x: &Vec<char>, prefix: &Vec<char>) -> (b: bool)
    ensures
        b == starts_with(x@, prefix@),
{
    if prefix.len() > x.len() {
        return false;
    }
    let mut i: usize = 0;
    while i < prefix.len()
        invariant
            prefix.len() <= x.len(),
            i <= prefix.len(),
            forall|k: int| 0 <= k < i ==> x@[k] == prefix@[k],
        decreases prefix.len() - i,
    {
        if x[i] != prefix[i] {
            assert(x@.subrange(0, prefix.len() as int)[i as int] != prefix@[i as int]);
            return false;
        }
        i += 1;
    }
    assert(x@.subrange(0, prefix.len() as int) =~= prefix@);
    true
}

/// `str::lines`.
pub fn split_lines(s: &Vec<char>) -> (ls: Vec<Vec<char>>)
    ensures
        views(ls@) == lines(s@),
{
    let mut out: Vec<Vec<char>> = Vec::new();
    let mut i: usize = 0;
    while i < s.len()
        invariant
            i <= s.len(),
            views(out@) + lines_from(s@, i as int) == lines(s@),
        decreases s.len() - i,
    {
        let mut j = i;
        while j < s.len() && s[j] != '\n'
            invariant
                i <= j <= s.len(),
                line_end(s@, i as int) == line_end(s@, j as int),
            decreases s.len() - j,
        {
            j += 1;
        }
        let mut end = j;
        if j < s.len() && j > i && s[j - 1] == '\r' {
            end = j - 1;
        }
        let line = copy_range(s, i, end);
        proof {
            let raw = s@.subrange(i as int, j as int);
            assert(j < s.len() ==> strip_cr(raw) =~= line@);
            assert(j == s.len() ==> raw =~= line@);
            assert(views(out@.push(line)) =~= views(out@).push(line@));
        }
        out.push(line);
        if j < s.len() {
            i = j + 1;
        } else {
            assert(lines_from(s@, j as int + 1) =~= seq![]);
            i = j;
        }
        assert(views(out@) + lines_from(s@, i as int) =~= lines(s@));
    }
    assert(views(out@) =~= lines(s@));
    out
}

/// `str::split_whitespace`.
pub fn split_words(x: &Vec<char>) -> (ws: Vec<Vec<char>>)
    ensures
        views(ws@) == words(x@),
{
    let mut out: Vec<Vec<char>> = Vec::new();
    let mut i: usize = 0;
    while i < x.len()
        invariant
            i <= x.len(),
            views(out@) + words_from(x@, i as int) == words(x@),
        decreases x.len() - i,
    {
        if char_is_whitespace(x[i]) {
            i += 1;
        } else {
            let mut j = i + 1;
            while j < x.len() && !char_is_whitespace(x[j])
                invariant
                    i < j <= x.len(),
                    word_end(x@, i as int) == word_end(x@, j as int),
                decreases x.len() - j,
            {
                j += 1;
            }
            let w = copy_range(x, i, j);
            proof {
                assert(views(out@.push(w)) =~= views(out@).push(w@));
                assert(views(out@).push(w@) + words_from(x@, j as int) =~= views(out@) + (seq![w@]
                    + words_from(x@, j as int)));
            }
            out.push(w);
            i = j;
        }
    }
    assert(views(out@) =~= words(x@));
    out
}

proof fn lemma_trim_start_skip(x: Seq<char>, i: int)
    requires
        0 <= i < x.len(),
        is_whitespace(x[i]),
    ensures
        trim_start(x.subrange(i, x.len() as int)) == trim_start(x.subrange(i + 1, x.len() as int)),
{
    assert(x.subrange(i, x.len() as int).drop_first() =~= x.subrange(i + 1, x.len() as int));
}

proof fn lemma_trim_end_skip(y: Seq<char>, k: int)
    requires
        0 < k <= y.len(),
        is_whitespace(y[k - 1]),
    ensures
        trim_end(y.subrange(0, k)) == trim_end(y.subrange(0, k - 1)),
{
    assert(y.subrange(0, k).drop_last() =~= y.subrange(0, k - 1));
}

/// `str::trim`.
pub fn trimmed(x: &Vec<char>) -> (t: Vec<char>)
    ensures
        t@ == trim(x@),
{
    assert(x@ =~= x@.subrange(0, x.len() as int));
    let mut a: usize = 0;
    while a < x.len() && char_is_whitespace(x[a])
        invariant
            a <= x.len(),
            trim_start(x@) == trim_start(x@.subrange(a as int, x.len() as int)),
        decreases x.len() - a,
    {
        proof {
            lemma_trim_start_skip(x@, a as int);
        }
        a += 1;
    }
    assert(x@ =~= x@.subrange(0, x.len() as int));
    let ghost rest = x@.subrange(a as int, x.len() as int);
    assert(trim_start(rest) == rest);
    let mut b: usize = x.len();
    assert(rest.subrange(0, (b - a) as int) =~= rest);
    while b > a && char_is_whitespace(x[b - 1])
        invariant
            a <= b <= x.len(),
            rest == x@.subrange(a as int, x.len() as int),
            trim_end(rest) == trim_end(rest.subrange(0, (b - a) as int)),
        decreases b,
    {
        proof {
            lemma_trim_end_skip(rest, (b - a) as int);
        }
        b -= 1;
    }
    let t = copy_range(x, a, b);
    assert(rest.subrange(0, (b - a) as int) =~= t@);
    t
}

/// `str::split_once` at the first `c`.
pub fn split_at_char(x: &Vec<char>, c: char) -> (r: Option<(Vec<char>, Vec<char>)>)
    ensures
        match r {
            Some((a, b)) => split_once(x@, c) == Some((a@, b@)),
            None => split_once(x@, c) is None,
        },
{
    let mut k: usize = 0;
    while k < x.len() && x[k] != c
        invariant
            k <= x.len(),
            find_char_from(x@, c, 0) == find_char_from(x@, c, k as int),
        decreases x.len() - k,
    {
        k += 1;
    }
    if k == x.len() {
        None
    } else {
        Some((copy_range(x, 0, k), copy_range(x, k + 1, x.len())))
    }
}

proof fn lemma_digits_value_take(d: Seq<char>, k: int)
    requires
        0 <= k < d.len(),
    ensures
        digits_value(d.take(k + 1)) == digits_value(d.take(k)) * 10 + ((d[k] as u32 - 0x30) as nat),
{
    assert(d.take(k + 1).drop_last() =~= d.take(k));
}

proof fn lemma_digits_value_prefix(d: Seq<char>, k: int)
    requires
        0 <= k <= d.len(),
    ensures
        digits_value(d.take(k)) <= digits_value(d),
    decreases d.len() - k,
{
    if k < d.len() {
        lemma_digits_value_take(d, k);
        lemma_digits_value_prefix(d, k + 1);
    } else {
        assert(d.take(k) =~= d);
    }
}

/// `str::parse::<u64>`.
pub fn parse_decimal(x: &Vec<char>) -> (r: Option<u64>)
    ensures
        r == parse_u64(x@),
{
    let start: usize = if x.len() > 0 && x[0] == '+' { 1 } else { 0 };
    let ghost d = unsigned_digits(x@);
    assert(d =~= x@.subrange(start as int, x.len() as int));
    if start == x.len() {
        return None;
    }
    let mut acc: u64 = 0;
    let mut i = start;
    assert(d.take(0) =~= seq![]);
    while i < x.len()
        invariant
            start <= i <= x.len(),
            d == x@.subrange(start as int, x.len() as int),
            d == unsigned_digits(x@),
            all_digits(d.take((i - start) as int)),
            acc == digits_value(d.take((i - start) as int)),
        decreases x.len() - i,
    {
        let c = x[i];
        let u = c as u32;
        assert(d[(i - start) as int] == c);
        if u < 0x30 || u > 0x39 {
            assert(!is_digit(d[(i - start) as int]));
            return None;
        }
        proof {
            lemma_digits_value_take(d, (i - start) as int);
        }
        let next = match acc.checked_mul(10) {
            Some(m) => m.checked_add((u - 0x30) as u64),
            None => None,
        };
        match next {
            Some(n) => {
                acc = n;
            },
            None => {
                proof {
                    if all_digits(d) {
                        lemma_digits_value_prefix(d, (i - start + 1) as int);
                    }
                }
                return None;
            },
        }
        i += 1;
        assert(all_digits(d.take((i - start) as int))) by {
            assert forall|k: int| 0 <= k < (i - start) implies is_digit(#[trigger] d.take((i - start) as int)[k]) by {
                if k < (i - start - 1) {
                    assert(d.take((i - start) as int)[k] == d.take((i - start - 1) as int)[k]);
                }
            }
        }
    }
    assert(d.take((i - start) as int) =~= d);
    Some(acc)
}

/// The views of a sequence of strings.
pub open spec fn string_views(v: Seq<String>) -> Seq<Seq<char>> {
    v.map_values(|x: String| x@)
}

/// Appends `c` to `s` (`String::push`).
#[verifier::external_body]
fn push_char(s: &mut String, c: char)
    ensures
        final(s)@ == old(s)@.push(c),
{
    s.push(c);
}

/// The string made of `cs`.
pub fn string_from_chars(cs: &Vec<char>) -> (s: String)
    ensures
        s@ == cs@,
{
    let mut s = String::new();
    let mut i: usize = 0;
    while i < cs.len()
        invariant
            i <= cs.len(),
            s@ == cs@.take(i as int),
        decreases cs.len() - i,
    {
        push_char(&mut s, cs[i]);
        i += 1;
        assert(s@ =~= cs@.take(i as int));
    }
    assert(cs@.take(i as int) =~= cs@);
    s
}

/// Decimal reading digit by digit: appending an ASCII digit `c` to a
/// non-empty run of digits that reads as `n` gives `10 * n + (c - '0')` when
/// that fits in 64 bits, and nothing otherwise; a single digit reads as its
/// value, and a leading `'+'` changes nothing.
pub proof fn lemma_parse_u64_digit(d: Seq<char>, c: char)
    requires
        d.len() > 0,
        d[0] != '+',
        is_digit(c),
    ensures
        parse_u64(seq![c]) == Some(((c as u32) - 0x30) as u64),
        parse_u64(seq!['+'].add(d)) == parse_u64(d),
        parse_u64(d) matches Some(n) ==> parse_u64(d.push(c)) == (if n * 10 + ((c as u32) - 0x30) <= u64::MAX {
            Some((n * 10 + ((c as u32) - 0x30)) as u64)
        } else {
            None::<u64>
        }),
        parse_u64(d) is None && all_digits(d) ==> parse_u64(d.push(c)) is None,
        !all_digits(d) ==> parse_u64(d.push(c)) is None,
{
    let one = seq![c];
    assert(one.drop_last() =~= Seq::<char>::empty());
    assert(one[0] == c);
    assert(unsigned_digits(one) == one);
    assert(all_digits(one));
    assert(digits_value(one) == digits_value(Seq::<char>::empty()) * 10 + ((c as u32 - 0x30) as nat));
    assert(seq!['+'].add(d).drop_first() =~= d);
    let e = d.push(c);
    assert(e.drop_last() =~= d);
    assert(unsigned_digits(e) == e);
    if !all_digits(d) {
        let k = choose|k: int| 0 <= k < d.len() && !is_digit(#[trigger] d[k]);
        assert(e[k] == d[k]);
    }
    if all_digits(d) {
        assert(all_digits(e)) by {
            assert forall|k: int| 0 <= k < e.len() implies is_digit(#[trigger] e[k]) by {
                if k < d.len() {
                    assert(e[k] == d[k]);
                }
            }
        }
    }
}

proof fn lemma_word_end_shift(p: Seq<char>, y: Seq<char>, j: int)
    requires
        p.len() <= j,
    ensures
        word_end(p + y, j) == word_end(y, j - p.len()) + p.len(),
    decreases (p + y).len() - j,
{
    if j < (p + y).len() {
        assert((p + y)[j] == y[j - p.len()]);
        lemma_word_end_shift(p, y, j + 1);
    }
}

proof fn lemma_words_shift(p: Seq<char>, y: Seq<char>, j: int)
    requires
        p.len() <= j,
    ensures
        words_from(p + y, j) == words_from(y, j - p.len()),
    decreases (p + y).len() - j,
{
    let z = p + y;
    if j < z.len() {
        assert(z[j] == y[j - p.len()]);
        if is_whitespace(z[j]) {
            lemma_words_shift(p, y, j + 1);
        } else {
            lemma_word_end_shift(p, y, j);
            lemma_word_end(z, j + 1);
            let e = word_end(z, j);
            lemma_words_shift(p, y, e);
            assert(z.subrange(j, e) =~= y.subrange(j - p.len(), e - p.len()));
        }
    }
}

proof fn lemma_word_end_prefix(x: Seq<char>, z: Seq<char>, i: int)
    requires
        0 <= i <= x.len() < z.len(),
        z.subrange(0, x.len() as int) == x,
        is_whitespace(z[x.len() as int]),
    ensures
        word_end(z, i) == word_end(x, i),
    decreases x.len() - i,
{
    if i < x.len() {
        assert(z[i] == z.subrange(0, x.len() as int)[i]);
        lemma_word_end_prefix(x, z, i + 1);
    }
}

proof fn lemma_words_prefix(x: Seq<char>, z: Seq<char>, i: int)
    requires
        0 <= i <= x.len() < z.len(),
        z.subrange(0, x.len() as int) == x,
        is_whitespace(z[x.len() as int]),
    ensures
        words_from(z, i) == words_from(x, i) + words_from(z, x.len() as int),
    decreases x.len() - i,
{
    if i == x.len() {
        assert(words_from(x, i) =~= seq![]);
        assert(words_from(z, i) =~= seq![] + words_from(z, i));
    } else {
        assert(z[i] == z.subrange(0, x.len() as int)[i]);
        if is_whitespace(x[i]) {
            lemma_words_prefix(x, z, i + 1);
        } else {
            lemma_word_end_prefix(x, z, i);
            lemma_word_end(x, i + 1);
            let e = word_end(x, i);
            lemma_words_prefix(x, z, e);
            assert(z.subrange(i, e) =~= x.subrange(i, e));
            assert(seq![x.subrange(i, e)] + (words_from(x, e) + words_from(z, x.len() as int))
                =~= (seq![x.subrange(i, e)] + words_from(x, e)) + words_from(z, x.len() as int));
        }
    }
}

/// Whitespace separates words: the words of two texts joined by a whitespace
/// character are the words of the first followed by those of the second. A
/// non-empty text without whitespace is a single word, and a text of
/// whitespace only has none.
pub proof fn lemma_words_split(x: Seq<char>, sep: char, y: Seq<char>)
    requires
        is_whitespace(sep),
    ensures
        words(x + seq![sep] + y) == words(x) + words(y),
        x.len() > 0 && (forall|k: int| 0 <= k < x.len() ==> !is_whitespace(#[trigger] x[k])) ==> words(x) == seq![x],
        (forall|k: int| 0 <= k < x.len() ==> is_whitespace(#[trigger] x[k])) ==> words(x) == Seq::<Seq<char>>::empty(),
{
    let p = x + seq![sep];
    let z = p + y;
    assert(z.subrange(0, x.len() as int) =~= x);
    assert(z[x.len() as int] == sep);
    lemma_words_prefix(x, z, 0);
    lemma_words_shift(p, y, p.len() as int);
    assert(words_from(z, x.len() as int) == words_from(z, x.len() as int + 1));
    if x.len() > 0 && (forall|k: int| 0 <= k < x.len() ==> !is_whitespace(#[trigger] x[k])) {
        lemma_word_end_all(x, 0);
        assert(x.subrange(0, x.len() as int) =~= x);
        assert(words_from(x, x.len() as int) =~= seq![]);
        assert(words(x) =~= seq![x]);
    }
    if forall|k: int| 0 <= k < x.len() ==> is_whitespace(#[trigger] x[k]) {
        lemma_words_blank(x, 0);
    }
}

proof fn lemma_word_end_all(x: Seq<char>, i: int)
    requires
        0 <= i <= x.len(),
        forall|k: int| 0 <= k < x.len() ==> !is_whitespace(#[trigger] x[k]),
    ensures
        word_end(x, i) == x.len(),
    decreases x.len() - i,
{
    if i < x.len() {
        lemma_word_end_all(x, i + 1);
    }
}

proof fn lemma_words_blank(x: Seq<char>, i: int)
    requires
        0 <= i <= x.len(),
        forall|k: int| 0 <= k < x.len() ==> is_whitespace(#[trigger] x[k]),
    ensures
        words_from(x, i) == Seq::<Seq<char>>::empty(),
    decreases x.len() - i,
{
    if i < x.len() {
        lemma_words_blank(x, i + 1);
    }
}

proof fn lemma_line_end_shift(p: Seq<char>, y: Seq<char>, j: int)
    requires
        p.len() <= j,
    ensures
        line_end(p + y, j) == line_end(y, j - p.len()) + p.len(),
    decreases (p + y).len() - j,
{
    if j < (p + y).len() {
        assert((p + y)[j] == y[j - p.len()]);
        lemma_line_end_shift(p, y, j + 1);
    }
}

proof fn lemma_lines_shift(p: Seq<char>, y: Seq<char>, j: int)
    requires
        p.len() <= j,
    ensures
        lines_from(p + y, j) == lines_from(y, j - p.len()),
    decreases (p + y).len() - j,
{
    let z = p + y;
    if j < z.len() {
        lemma_line_end_shift(p, y, j);
        lemma_line_end(z, j);
        let e = line_end(z, j);
        assert(z.subrange(j, e) =~= y.subrange(j - p.len(), e - p.len()));
        if e < z.len() {
            lemma_lines_shift(p, y, e + 1);
        }
    }
}

proof fn lemma_line_end_none(x: Seq<char>, i: int)
    requires
        0 <= i <= x.len(),
        forall|k: int| 0 <= k < x.len() ==> #[trigger] x[k] != '\n',
    ensures
        line_end(x, i) == x.len(),
    decreases x.len() - i,
{
    if i < x.len() {
        lemma_line_end_none(x, i + 1);
    }
}

/// Line splitting: a text of no `'\n'` is one line (none when empty), and a
/// line ended by `'\n'` (with a carriage return before the `'\n'` removed)
/// comes first, followed by the lines of the rest.
pub proof fn lemma_lines_split(x: Seq<char>, y: Seq<char>)
    requires
        forall|k: int| 0 <= k < x.len() ==> #[trigger] x[k] != '\n',
    ensures
        lines(x + seq!['\n'] + y) == seq![strip_cr(x)] + lines(y),
        x.len() > 0 ==> lines(x) == seq![x],
        lines(Seq::<char>::empty()) == Seq::<Seq<char>>::empty(),
{
    let p = x + seq!['\n'];
    let z = p + y;
    assert forall|k: int| 0 <= k < x.len() implies #[trigger] z[k] != '\n' by {
        assert(z[k] == x[k]);
    }
    assert(z[x.len() as int] == '\n');
    lemma_line_end_prefix_none(x, z, 0);
    assert(z.subrange(0, x.len() as int) =~= x);
    lemma_lines_shift(p, y, p.len() as int);
    if x.len() > 0 {
        lemma_line_end_none(x, 0);
        assert(x.subrange(0, x.len() as int) =~= x);
    }
}

proof fn lemma_line_end_prefix_none(x: Seq<char>, z: Seq<char>, i: int)
    requires
        0 <= i <= x.len() < z.len(),
        forall|k: int| 0 <= k < x.len() ==> #[trigger] z[k] != '\n',
        z[x.len() as int] == '\n',
    ensures
        line_end(z, i) == x.len(),
    decreases x.len() - i,
{
    if i < x.len() {
        lemma_line_end_prefix_none(x, z, i + 1);
    }
}

proof fn lemma_find_char_at(a: Seq<char>, c: char, b: Seq<char>, i: int)
    requires
        0 <= i <= a.len(),
        forall|k: int| 0 <= k < a.len() ==> #[trigger] a[k] != c,
    ensures
        find_char_from(a + seq![c] + b, c, i) == Some(a.len() as int),
    decreases a.len() - i,
{
    let z = a + seq![c] + b;
    if i < a.len() {
        assert(z[i] == a[i]);
        lemma_find_char_at(a, c, b, i + 1);
    } else {
        assert(z[i] == c);
    }
}

proof fn lemma_find_char_none(x: Seq<char>, c: char, i: int)
    requires
        0 <= i <= x.len(),
        forall|k: int| 0 <= k < x.len() ==> #[trigger] x[k] != c,
    ensures
        find_char_from(x, c, i) is None,
    decreases x.len() - i,
{
    if i < x.len() {
        lemma_find_char_none(x, c, i + 1);
    }
}

/// Splitting at the first `c`: a text without `c` does not split, and
/// `a + c + b` with no `c` in `a` splits into `a` and `b`.
pub proof fn lemma_split_once_first(a: Seq<char>, c: char, b: Seq<char>)
    requires
        forall|k: int| 0 <= k < a.len() ==> #[trigger] a[k] != c,
    ensures
        split_once(a + seq![c] + b, c) == Some((a, b)),
        split_once(a, c) is None,
{
    let z = a + seq![c] + b;
    lemma_find_char_at(a, c, b, 0);
    lemma_find_char_none(a, c, 0);
    assert(z.subrange(0, a.len() as int) =~= a);
    assert(z.subrange(a.len() as int + 1, z.len() as int) =~= b);
}

pub open spec fn all_whitespace(x: Seq<char>) -> bool {
    forall|k: int| 0 <= k < x.len() ==> is_whitespace(#[trigger] x[k])
}

proof fn lemma_trim_start_blank(a: Seq<char>, r: Seq<char>)
    requires
        all_whitespace(a),
        r.len() == 0 || !is_whitespace(r[0]),
    ensures
        trim_start(a + r) == r,
    decreases a.len(),
{
    if a.len() > 0 {
        assert((a + r)[0] == a[0]);
        assert((a + r).drop_first() =~= a.drop_first() + r);
        assert(all_whitespace(a.drop_first())) by {
            assert forall|k: int| 0 <= k < a.drop_first().len() implies is_whitespace(#[trigger] a.drop_first()[k]) by {
                assert(a.drop_first()[k] == a[k + 1]);
            }
        }
        lemma_trim_start_blank(a.drop_first(), r);
    } else {
        assert(a + r =~= r);
    }
}

proof fn lemma_trim_end_blank(m: Seq<char>, b: Seq<char>)
    requires
        all_whitespace(b),
        m.len() == 0 || !is_whitespace(m.last()),
    ensures
        trim_end(m + b) == m,
    decreases b.len(),
{
    if b.len() > 0 {
        assert((m + b).last() == b.last());
        assert((m + b).drop_last() =~= m + b.drop_last());
        assert(all_whitespace(b.drop_last())) by {
            assert forall|k: int| 0 <= k < b.drop_last().len() implies is_whitespace(#[trigger] b.drop_last()[k]) by {
                assert(b.drop_last()[k] == b[k]);
            }
        }
        lemma_trim_end_blank(m, b.drop_last());
    } else {
        assert(m + b =~= m);
    }
}

/// Trimming removes exactly the surrounding whitespace: when `a` and `b` are
/// whitespace only and `m` is empty or starts and ends with non-whitespace,
/// `a + m + b` trims to `m`.
pub proof fn lemma_trim_surrounding(a: Seq<char>, m: Seq<char>, b: Seq<char>)
    requires
        all_whitespace(a),
        all_whitespace(b),
        m.len() == 0 || (!is_whitespace(m[0]) && !is_whitespace(m.last())),
    ensures
        trim(a + m + b) == m,
{
    if m.len() > 0 {
        assert((m + b)[0] == m[0]);
        lemma_trim_start_blank(a, m + b);
        assert(a + m + b =~= a + (m + b));
        lemma_trim_end_blank(m, b);
    } else {
        let ab = a + b;
        assert(all_whitespace(ab)) by {
            assert forall|k: int| 0 <= k < ab.len() implies is_whitespace(#[trigger] ab[k]) by {
                if k < a.len() {
                    assert(ab[k] == a[k]);
                } else {
                    assert(ab[k] == b[k - a.len()]);
                }
            }
        }
        lemma_trim_start_blank(ab, Seq::<char>::empty());
        assert(ab + Seq::<char>::empty() =~= a + m + b);
    }
}

} // verus!
