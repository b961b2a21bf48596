//! Character-level text operations: the subset of `str`'s behaviour that the
//! error scanner needs, each stated over `Seq<char>` and implemented on
//! `Vec<char>`.

use vstd::prelude::*;
use vstd::utf8::is_ascii_chars;

verus! {

/// The Unicode `White_Space` property, which is what `char::is_whitespace` tests.
pub open spec fn is_white_space(c: char) -> bool {
    let u = c as u32;
    ||| 0x09 <= u <= 0x0d
    ||| u == 0x20
    ||| u == 0x85
    ||| u == 0xa0
    ||| u == 0x1680
    ||| 0x2000 <= u <= 0x200a
    ||| u == 0x2028
    ||| u == 0x2029
    ||| u == 0x202f
    ||| u == 0x205f
    ||| u == 0x3000
}

/// `s` with its leading white space removed.
pub open spec fn trim_start(s: Seq<char>) -> Seq<char>
    decreases s.len(),
{
    if s.len() > 0 && is_white_space(s[0]) {
        trim_start(s.drop_first())
    } else {
        s
    }
}

/// `s` with its trailing white space removed.
pub open spec fn trim_end(s: Seq<char>) -> Seq<char>
    decreases s.len(),
{
    if s.len() > 0 && is_white_space(s.last()) {
        trim_end(s.drop_last())
    } else {
        s
    }
}

/// `str::trim`: white space removed at both ends.
pub open spec fn trim(s: Seq<char>) -> Seq<char> {
    trim_end(trim_start(s))
}

pub fn is_whitespace_char(c: char) -> (b: bool)
    ensures
        b == is_white_space(c),
{
    let u = c as u32;
    (0x09 <= u && u <= 0x0d) || u == 0x20 || u == 0x85 || u == 0xa0 || u == 0x1680 || (0x2000
        <= u && u <= 0x200a) || u == 0x2028 || u == 0x2029 || u == 0x202f || u == 0x205f || u
        == 0x3000
}

proof fn lemma_trim_start_at(s: Seq<char>, i: int)
    requires
        0 <= i <= s.len(),
        forall|k: int| 0 <= k < i ==> is_white_space(#[trigger] s[k]),
        i == s.len() || !is_white_space(s[i]),
    ensures
        trim_start(s) == s.skip(i),
    decreases i,
{
    if i == 0 {
        assert(s.skip(0) =~= s);
    } else {
        let t = s.drop_first();
        assert forall|k: int| 0 <= k < i - 1 implies is_white_space(#[trigger] t[k]) by {
            assert(t[k] == s[k + 1]);
        }
        lemma_trim_start_at(t, i - 1);
        assert(t.skip(i - 1) =~= s.skip(i));
    }
}

proof fn lemma_trim_end_at(s: Seq<char>, j: int)
    requires
        0 <= j <= s.len(),
        forall|k: int| j <= k < s.len() ==> is_white_space(#[trigger] s[k]),
        j == 0 || !is_white_space(s[j - 1]),
    ensures
        trim_end(s) == s.take(j),
    decreases s.len() - j,
{
    if j == s.len() {
        assert(s.take(j) =~= s);
    } else {
        let t = s.drop_last();
        lemma_trim_end_at(t, j);
        assert(t.take(j) =~= s.take(j));
    }
}

/// `str::trim` on a character vector.
pub fn trim_chars(s: &Vec<char>) -> (r: Vec<char>)
    ensures
        r@ == trim(s@),
{
    let n = s.len();
    let mut i: usize = 0;
    while i < n && is_whitespace_char(s[i])
        invariant
            i <= n == s.len(),
            forall|k: int| 0 <= k < i ==> is_white_space(#[trigger] s@[k]),
        decreases n - i,
    {
        i = i + 1;
    }
    let mut j: usize = n;
    while j > i && is_whitespace_char(s[j - 1])
        invariant
            i <= j <= n == s.len(),
            forall|k: int| j <= k < n ==> is_white_space(#[trigger] s@[k]),
        decreases j,
    {
        j = j - 1;
    }
    let mut r: Vec<char> = Vec::new();
    let mut k: usize = i;
    while k < j
        invariant
            i <= k <= j <= n == s.len(),
            r@ == s@.subrange(i as int, k as int),
        decreases j - k,
    {
        r.push(s[k]);
        k = k + 1;
        assert(r@ =~= s@.subrange(i as int, k as int));
    }
    proof {
        lemma_trim_start_at(s@, i as int);
        let t = s@.skip(i as int);
        assert forall|k: int| j - i <= k < t.len() implies is_white_space(#[trigger] t[k]) by {
            assert(t[k] == s@[k + i]);
        }
        if j > i {
            assert(t[j - i - 1] == s@[j - 1]);
        }
        lemma_trim_end_at(t, j - i);
        assert(t.take(j - i) =~= s@.subrange(i as int, j as int));
    }
    r
}


/// Length of the run of non-white-space characters that `s` starts with.
pub open spec fn word_len(s: Seq<char>) -> nat
    decreases s.len(),
{
    if s.len() == 0 || is_white_space(s[0]) {
        0
    } else {
        1 + word_len(s.drop_first())
    }
}

/// A leading word is never longer than the text it starts.
pub proof fn lemma_word_len_bound(s: Seq<char>)
    ensures
        word_len(s) <= s.len(),
    decreases s.len(),
{
    if s.len() > 0 && !is_white_space(s[0]) {
        lemma_word_len_bound(s.drop_first());
    }
}

/// `str::split_whitespace`: the maximal runs of non-white-space characters, in order.
pub open spec fn words(s: Seq<char>) -> Seq<Seq<char>>
    decreases s.len(),
{
    if s.len() == 0 {
        seq![]
    } else if is_white_space(s[0]) {
        words(s.drop_first())
    } else {
        proof {
            lemma_word_len_bound(s);
        }
        let n = word_len(s);
        seq![s.take(n as int)] + words(s.skip(n as int))
    }
}

/// `join`: the pieces, with `sep` between each two neighbours.
pub open spec fn join(pieces: Seq<Seq<char>>, sep: Seq<char>) -> Seq<char>
    decreases pieces.len(),
{
    if pieces.len() == 0 {
        seq![]
    } else if pieces.len() == 1 {
        pieces[0]
    } else {
        join(pieces.drop_last(), sep) + sep + pieces.last()
    }
}

/// The words of `s` joined by single spaces: every run of white space becomes
/// one space, and there is none at either end.
pub open spec fn collapse_white_space(s: Seq<char>) -> Seq<char> {
    join(words(s), seq![' '])
}

proof fn lemma_words_skip_space(s: Seq<char>, i: int, j: int)
    requires
        0 <= i <= j <= s.len(),
        forall|k: int| i <= k < j ==> is_white_space(#[trigger] s[k]),
    ensures
        words(s.skip(i)) == words(s.skip(j)),
    decreases j - i,
{
    if i < j {
        let t = s.skip(i);
        assert(t[0] == s[i]);
        assert(t.drop_first() =~= s.skip(i + 1));
        lemma_words_skip_space(s, i + 1, j);
    }
}

proof fn lemma_word_len_at(s: Seq<char>, k: int)
    requires
        0 <= k <= s.len(),
        forall|m: int| 0 <= m < k ==> !is_white_space(#[trigger] s[m]),
        k == s.len() || is_white_space(s[k]),
    ensures
        word_len(s) == k,
    decreases k,
{
    if k > 0 {
        let t = s.drop_first();
        assert forall|m: int| 0 <= m < k - 1 implies !is_white_space(#[trigger] t[m]) by {
            assert(t[m] == s[m + 1]);
        }
        lemma_word_len_at(t, k - 1);
    }
}

proof fn lemma_words_take_word(s: Seq<char>, j: int, k: int)
    requires
        0 <= j < k <= s.len(),
        forall|m: int| j <= m < k ==> !is_white_space(#[trigger] s[m]),
        k == s.len() || is_white_space(s[k]),
    ensures
        words(s.skip(j)) == seq![s.subrange(j, k)] + words(s.skip(k)),
{
    let t = s.skip(j);
    assert forall|m: int| 0 <= m < k - j implies !is_white_space(#[trigger] t[m]) by {
        assert(t[m] == s[m + j]);
    }
    if k < s.len() {
        assert(t[k - j] == s[k]);
    }
    lemma_word_len_at(t, k - j);
    assert(t[0] == s[j]);
    assert(t.take(k - j) =~= s.subrange(j, k));
    assert(t.skip(k - j) =~= s.skip(k));
}

/// `split_whitespace` followed by `join(" ")`.
pub fn collapse_white_space_chars(s: &Vec<char>) -> (r: Vec<char>)
    ensures
        r@ == collapse_white_space(s@),
{
    let n = s.len();
    let mut r: Vec<char> = Vec::new();
    let mut i: usize = 0;
    let ghost mut done: Seq<Seq<char>> = seq![];
    let mut any_word = false;
    assert(s@.skip(0) =~= s@);
    while i < n
        invariant
            i <= n == s.len(),
            r@ == join(done, seq![' ']),
            any_word == (done.len() > 0),
            words(s@) == done + words(s@.skip(i as int)),
        decreases n - i,
    {
        let start = i;
        while i < n && is_whitespace_char(s[i])
            invariant
                start <= i <= n == s.len(),
                forall|m: int| start <= m < i ==> is_white_space(#[trigger] s@[m]),
            decreases n - i,
        {
            i = i + 1;
        }
        proof {
            lemma_words_skip_space(s@, start as int, i as int);
        }
        if i < n {
            let j = i;
            while i < n && !is_whitespace_char(s[i])
                invariant
                    j <= i <= n == s.len(),
                    forall|m: int| j <= m < i ==> !is_white_space(#[trigger] s@[m]),
                decreases n - i,
            {
                i = i + 1;
            }
            if any_word {
                r.push(' ');
            }
            any_word = true;
            let ghost before = r@;
            let mut k = j;
            while k < i
                invariant
                    j <= k <= i <= n == s.len(),
                    r@ == before + s@.subrange(j as int, k as int),
                decreases i - k,
            {
                r.push(s[k]);
                k = k + 1;
                assert(r@ =~= before + s@.subrange(j as int, k as int));
            }
            proof {
                lemma_words_take_word(s@, j as int, i as int);
                let w = s@.subrange(j as int, i as int);
                let nd = done.push(w);
                assert(nd.drop_last() =~= done);
                assert(r@ =~= join(nd, seq![' ']));
                assert(done + (seq![w] + words(s@.skip(i as int))) =~= nd + words(s@.skip(i as int)));
                done = nd;
            }
        }
    }
    proof {
        assert(s@.skip(n as int) =~= Seq::<char>::empty());
        assert(done + Seq::<Seq<char>>::empty() =~= done);
    }
    r
}


/// `str::replace`: every occurrence of `pat`, scanning from the left without
/// overlap, replaced by `rep`.
pub open spec fn replace_all(s: Seq<char>, pat: Seq<char>, rep: Seq<char>) -> Seq<char>
    recommends
        pat.len() > 0,
    decreases s.len(),
{
    if s.len() == 0 || pat.len() == 0 {
        s
    } else if pat.len() <= s.len() && s.take(pat.len() as int) == pat {
        rep + replace_all(s.skip(pat.len() as int), pat, rep)
    } else {
        seq![s[0]] + replace_all(s.drop_first(), pat, rep)
    }
}

/// `str::starts_with`.
pub open spec fn starts_with(s: Seq<char>, prefix: Seq<char>) -> bool {
    prefix.len() <= s.len() && s.take(prefix.len() as int) == prefix
}

/// Whether `pat` occurs in `s` at position `i`.
pub fn matches_at(s: &Vec<char>, i: usize, pat: &Vec<char>) -> (b: bool)
    ensures
        b == (i + pat@.len() <= s@.len() && s@.subrange(i as int, i + pat@.len()) == pat@),
{
    let m = pat.len();
    if i > s.len() || m > s.len() - i {
        return false;
    }
    let mut k: usize = 0;
    while k < m
        invariant
            k <= m == pat@.len(),
            i + m <= s@.len() == s.len(),
            forall|q: int| 0 <= q < k ==> s@[i + q] == pat@[q],
        decreases m - k,
    {
        if s[i + k] != pat[k] {
            assert(s@.subrange(i as int, i + m)[k as int] != pat@[k as int]);
            return false;
        }
        k = k + 1;
    }
    assert(s@.subrange(i as int, i + m) =~= pat@);
    true
}

/// `str::starts_with` on character vectors.
pub fn starts_with_chars(s: &Vec<char>, prefix: &Vec<char>) -> (b: bool)
    ensures
        b == starts_with(s@, prefix@),
{
    let b = matches_at(s, 0, prefix);
    assert(s@.subrange(0, prefix@.len() as int) =~= s@.take(prefix@.len() as int));
    b
}

/// Whether `c` occurs in `s`.
pub fn contains_char(s: &Vec<char>, c: char) -> (b: bool)
    ensures
        b == s@.contains(c),
{
    let mut k: usize = 0;
    while k < s.len()
        invariant
            k <= s@.len(),
            forall|q: int| 0 <= q < k ==> s@[q] != c,
        decreases s.len() - k,
    {
        if s[k] == c {
            return true;
        }
        k = k + 1;
    }
    false
}

proof fn lemma_replace_step_match(s: Seq<char>, i: int, pat: Seq<char>, rep: Seq<char>)
    requires
        pat.len() > 0,
        0 <= i,
        i + pat.len() <= s.len(),
        s.subrange(i, i + pat.len()) == pat,
    ensures
        replace_all(s.skip(i), pat, rep) == rep + replace_all(s.skip(i + pat.len()), pat, rep),
{
    let t = s.skip(i);
    assert(t.take(pat.len() as int) =~= s.subrange(i, i + pat.len()));
    assert(t.skip(pat.len() as int) =~= s.skip(i + pat.len()));
}

proof fn lemma_replace_step_plain(s: Seq<char>, i: int, pat: Seq<char>, rep: Seq<char>)
    requires
        pat.len() > 0,
        0 <= i < s.len(),
        !(i + pat.len() <= s.len() && s.subrange(i, i + pat.len()) == pat),
    ensures
        replace_all(s.skip(i), pat, rep) == seq![s[i]] + replace_all(s.skip(i + 1), pat, rep),
{
    let t = s.skip(i);
    if pat.len() <= t.len() {
        assert(t.take(pat.len() as int) =~= s.subrange(i, i + pat.len()));
    }
    assert(t.drop_first() =~= s.skip(i + 1));
}

/// `str::replace` on character vectors, for a non-empty pattern.
pub fn replace_chars(s: &Vec<char>, pat: &Vec<char>, rep: &Vec<char>) -> (r: Vec<char>)
    requires
        pat@.len() > 0,
    ensures
        r@ == replace_all(s@, pat@, rep@),
{
    let n = s.len();
    let m = pat.len();
    let mut r: Vec<char> = Vec::new();
    let mut i: usize = 0;
    assert(s@.skip(0) =~= s@);
    while i < n
        invariant
            i <= n == s@.len(),
            m == pat@.len() > 0,
            r@ + replace_all(s@.skip(i as int), pat@, rep@) == replace_all(s@, pat@, rep@),
        decreases n - i,
    {
        if matches_at(s, i, pat) {
            proof {
                lemma_replace_step_match(s@, i as int, pat@, rep@);
            }
            let ghost before = r@;
            let mut k: usize = 0;
            while k < rep.len()
                invariant
                    k <= rep@.len(),
                    r@ == before + rep@.take(k as int),
                decreases rep.len() - k,
            {
                r.push(rep[k]);
                k = k + 1;
                assert(r@ =~= before + rep@.take(k as int));
            }
            assert(rep@.take(rep@.len() as int) =~= rep@);
            assert(before + (rep@ + replace_all(s@.skip(i + m), pat@, rep@)) =~= r@
                + replace_all(s@.skip(i + m), pat@, rep@));
            i = i + m;
        } else {
            proof {
                lemma_replace_step_plain(s@, i as int, pat@, rep@);
            }
            let ghost before = r@;
            r.push(s[i]);
            assert(before + (seq![s@[i as int]] + replace_all(s@.skip(i + 1), pat@, rep@))
                =~= r@ + replace_all(s@.skip(i + 1), pat@, rep@));
            i = i + 1;
        }
    }
    proof {
        assert(s@.skip(n as int) =~= Seq::<char>::empty());
        assert(r@ + Seq::<char>::empty() =~= r@);
    }
    r
}

/// The part of `s` before the first `c`: all of `s` when there is none.
pub open spec fn before_char(s: Seq<char>, c: char) -> Seq<char>
    decreases s.len(),
{
    if s.len() == 0 {
        s
    } else if s[0] == c {
        seq![]
    } else {
        seq![s[0]] + before_char(s.drop_first(), c)
    }
}

/// The part before the first separator is never longer than the text.
pub proof fn lemma_before_char_len(s: Seq<char>, c: char)
    ensures
        before_char(s, c).len() <= s.len(),
        before_char(s, c).len() == s.len() <==> !s.contains(c),
        before_char(s, c) == s.take(before_char(s, c).len() as int),
    decreases s.len(),
{
    if s.len() == 0 {
        assert(s.take(0) =~= s);
    } else {
        if s[0] == c {
            assert(s.contains(c));
            assert(s.take(0) =~= Seq::<char>::empty());
        } else {
            lemma_before_char_len(s.drop_first(), c);
            let p = before_char(s.drop_first(), c);
            assert(seq![s[0]] + p =~= s.take(p.len() + 1int));
            if s.drop_first().contains(c) {
                let k = choose|k: int| 0 <= k < s.drop_first().len() && s.drop_first()[k] == c;
                assert(s[k + 1] == c);
            }
            if s.contains(c) {
                let k = choose|k: int| 0 <= k < s.len() && s[k] == c;
                assert(s.drop_first()[k - 1] == c);
            }
        }
    }
}

/// `split(c)`: the pieces between the occurrences of `c`, empty ones included;
/// there is always at least one.
pub open spec fn split_on(s: Seq<char>, c: char) -> Seq<Seq<char>>
    decreases s.len(),
{
    let p = before_char(s, c);
    if p.len() >= s.len() {
        seq![s]
    } else {
        proof {
            lemma_before_char_len(s, c);
        }
        seq![p] + split_on(s.skip(p.len() + 1int), c)
    }
}

/// `split` always yields a piece, and a second one exactly when the
/// separator occurs.
pub proof fn lemma_split_on_len(s: Seq<char>, c: char)
    ensures
        split_on(s, c).len() >= 1,
        split_on(s, c).len() >= 2 <==> s.contains(c),
        split_on(s, c)[0] == before_char(s, c),
    decreases s.len(),
{
    lemma_before_char_len(s, c);
    let p = before_char(s, c);
    if p.len() >= s.len() {
        assert(s.take(p.len() as int) =~= s);
    } else {
        lemma_split_on_len(s.skip(p.len() + 1int), c);
    }
}

/// A line with one carriage return at its end taken off.
pub open spec fn strip_carriage_return(line: Seq<char>) -> Seq<char> {
    if line.len() > 0 && line.last() == '\r' {
        line.drop_last()
    } else {
        line
    }
}

/// `str::lines`: the text cut at each `\n`, a `\r` just before the `\n`
/// dropped; a final line ending adds no empty line.
pub open spec fn lines(s: Seq<char>) -> Seq<Seq<char>>
    decreases s.len(),
{
    if s.len() == 0 {
        seq![]
    } else {
        let p = before_char(s, '\n');
        if p.len() >= s.len() {
            seq![s]
        } else {
            proof {
                lemma_before_char_len(s, '\n');
            }
            seq![strip_carriage_return(p)] + lines(s.skip(p.len() + 1int))
        }
    }
}

/// The first position at or after `i` that holds `c`, or the length.
pub fn find_char_from(s: &Vec<char>, i: usize, c: char) -> (k: usize)
    requires
        i <= s@.len(),
    ensures
        i <= k <= s@.len(),
        forall|m: int| i <= m < k ==> s@[m] != c,
        k == s@.len() || s@[k as int] == c,
{
    let mut k = i;
    while k < s.len() && s[k] != c
        invariant
            i <= k <= s@.len(),
            forall|m: int| i <= m < k ==> s@[m] != c,
        decreases s.len() - k,
    {
        k = k + 1;
    }
    k
}

proof fn lemma_before_char_at(s: Seq<char>, c: char, k: int)
    requires
        0 <= k <= s.len(),
        forall|m: int| 0 <= m < k ==> s[m] != c,
        k == s.len() || s[k] == c,
    ensures
        before_char(s, c) == s.take(k),
    decreases k,
{
    if k == 0 {
        assert(s.take(0) =~= Seq::<char>::empty());
        if s.len() == 0 {
            assert(s =~= Seq::<char>::empty());
        }
    } else {
        let t = s.drop_first();
        assert forall|m: int| 0 <= m < k - 1 implies t[m] != c by {
            assert(t[m] == s[m + 1]);
        }
        lemma_before_char_at(t, c, k - 1);
        assert(seq![s[0]] + t.take(k - 1) =~= s.take(k));
    }
}

/// The characters of `s` from `i` up to `k`.
pub fn copy_range(s: &Vec<char>, i: usize, k: usize) -> (r: Vec<char>)
    requires
        i <= k <= s@.len(),
    ensures
        r@ == s@.subrange(i as int, k as int),
{
    let mut r: Vec<char> = Vec::new();
    let mut q = i;
    while q < k
        invariant
            i <= q <= k <= s@.len(),
            r@ == s@.subrange(i as int, q as int),
        decreases k - q,
    {
        r.push(s[q]);
        q = q + 1;
        assert(r@ =~= s@.subrange(i as int, q as int));
    }
    r
}

/// The part of `s` before the first `c` (`s.split(c).next()`).
pub fn before_char_chars(s: &Vec<char>, c: char) -> (r: Vec<char>)
    ensures
        r@ == before_char(s@, c),
{
    let k = find_char_from(s, 0, c);
    proof {
        lemma_before_char_at(s@, c, k as int);
    }
    copy_range(s, 0, k)
}

/// Spells out `split_on` for a piece that starts at `i` and ends at the
/// separator found at `k`, or at the end.
proof fn lemma_split_step(s: Seq<char>, c: char, i: int, k: int)
    requires
        0 <= i <= k <= s.len(),
        forall|m: int| i <= m < k ==> s[m] != c,
        k == s.len() || s[k] == c,
    ensures
        k == s.len() ==> split_on(s.skip(i), c) == seq![s.subrange(i, k)],
        k < s.len() ==> split_on(s.skip(i), c) == seq![s.subrange(i, k)] + split_on(
            s.skip(k + 1),
            c,
        ),
        before_char(s.skip(i), c) == s.subrange(i, k),
{
    let t = s.skip(i);
    assert forall|m: int| 0 <= m < k - i implies t[m] != c by {
        assert(t[m] == s[m + i]);
    }
    if k < s.len() {
        assert(t[k - i] == s[k]);
    }
    lemma_before_char_at(t, c, k - i);
    assert(t.take(k - i) =~= s.subrange(i, k));
    if k == s.len() {
        assert(t =~= s.subrange(i, k));
    } else {
        assert(t.skip(k - i + 1) =~= s.skip(k + 1));
    }
}

/// The texts held by a vector of character vectors.
pub open spec fn views(v: Seq<Vec<char>>) -> Seq<Seq<char>> {
    v.map_values(|w: Vec<char>| w@)
}

/// `split(c)` on a character vector.
pub fn split_chars(s: &Vec<char>, c: char) -> (r: Vec<Vec<char>>)
    ensures
        views(r@) == split_on(s@, c),
{
    let n = s.len();
    let mut r: Vec<Vec<char>> = Vec::new();
    let mut i: usize = 0;
    assert(s@.skip(0) =~= s@);
    loop
        invariant_except_break
            i <= n == s@.len(),
            views(r@) + split_on(s@.skip(i as int), c) == split_on(s@, c),
        ensures
            views(r@) == split_on(s@, c),
        decreases n - i,
    {
        let k = find_char_from(s, i, c);
        let piece = copy_range(s, i, k);
        proof {
            lemma_split_step(s@, c, i as int, k as int);
        }
        let ghost before = views(r@);
        r.push(piece);
        assert(views(r@) =~= before.push(s@.subrange(i as int, k as int)));
        if k == n {
            assert(views(r@) =~= before + seq![s@.subrange(i as int, k as int)]);
            break ;
        }
        assert(before + (seq![s@.subrange(i as int, k as int)] + split_on(s@.skip(k + 1), c))
            =~= views(r@) + split_on(s@.skip(k + 1), c));
        i = k + 1;
    }
    r
}

/// `str::lines` on a character vector.
pub fn lines_chars(s: &Vec<char>) -> (r: Vec<Vec<char>>)
    ensures
        views(r@) == lines(s@),
{
    let n = s.len();
    let mut r: Vec<Vec<char>> = Vec::new();
    let mut i: usize = 0;
    assert(s@.skip(0) =~= s@);
    while i < n
        invariant
            i <= n == s@.len(),
            views(r@) + lines(s@.skip(i as int)) == lines(s@),
        decreases n - i,
    {
        let k = find_char_from(s, i, '\n');
        let mut piece = copy_range(s, i, k);
        proof {
            lemma_split_step(s@, '\n', i as int, k as int);
        }
        let ghost before = views(r@);
        let ghost t = s@.skip(i as int);
        assert(t.len() > 0);
        if k == n {
            assert(piece@ =~= t);
            r.push(piece);
            assert(views(r@) =~= before + lines(t));
            i = n;
        } else {
            if piece.len() > 0 && piece[piece.len() - 1] == '\r' {
                piece.pop();
            }
            assert(piece@ =~= strip_carriage_return(s@.subrange(i as int, k as int)));
            r.push(piece);
            assert(t.skip((k - i) + 1) =~= s@.skip(k + 1));
            assert(views(r@) =~= before.push(piece@));
            assert(before + (seq![piece@] + lines(s@.skip(k + 1))) =~= views(r@) + lines(
                s@.skip(k + 1),
            ));
            i = k + 1;
        }
    }
    proof {
        assert(s@.skip(n as int) =~= Seq::<char>::empty());
        assert(views(r@) + Seq::<Seq<char>>::empty() =~= views(r@));
    }
    r
}


/// Trimming keeps every character that is not white space: such a character
/// occurs in the trimmed text exactly when it occurs in the text.
pub proof fn lemma_trim_keeps_visible(s: Seq<char>, c: char)
    requires
        !is_white_space(c),
    ensures
        trim(s).contains(c) <==> s.contains(c),
{
    lemma_trim_start_keeps(s, c);
    lemma_trim_end_keeps(trim_start(s), c);
}

proof fn lemma_trim_start_keeps(s: Seq<char>, c: char)
    requires
        !is_white_space(c),
    ensures
        trim_start(s).contains(c) <==> s.contains(c),
    decreases s.len(),
{
    if s.len() > 0 && is_white_space(s[0]) {
        let t = s.drop_first();
        lemma_trim_start_keeps(t, c);
        if s.contains(c) {
            let k = choose|k: int| 0 <= k < s.len() && s[k] == c;
            assert(t[k - 1] == c);
        }
        if t.contains(c) {
            let k = choose|k: int| 0 <= k < t.len() && t[k] == c;
            assert(s[k + 1] == c);
        }
    }
}

proof fn lemma_trim_end_keeps(s: Seq<char>, c: char)
    requires
        !is_white_space(c),
    ensures
        trim_end(s).contains(c) <==> s.contains(c),
    decreases s.len(),
{
    if s.len() > 0 && is_white_space(s.last()) {
        let t = s.drop_last();
        lemma_trim_end_keeps(t, c);
        if s.contains(c) {
            let k = choose|k: int| 0 <= k < s.len() && s[k] == c;
            assert(t[k] == c);
        }
        if t.contains(c) {
            let k = choose|k: int| 0 <= k < t.len() && t[k] == c;
            assert(s[k] == c);
        }
    }
}

/// Replacing never brings in a character that neither the text nor the
/// replacement holds.
pub proof fn lemma_replace_keeps_absent(s: Seq<char>, pat: Seq<char>, rep: Seq<char>, c: char)
    requires
        !s.contains(c),
        !rep.contains(c),
    ensures
        !replace_all(s, pat, rep).contains(c),
    decreases s.len(),
{
    if s.len() > 0 && pat.len() > 0 {
        if pat.len() <= s.len() && s.take(pat.len() as int) == pat {
            let t = s.skip(pat.len() as int);
            assert forall|k: int| 0 <= k < t.len() implies t[k] != c by {
                assert(t[k] == s[k + pat.len()]);
            }
            lemma_replace_keeps_absent(t, pat, rep, c);
            let r = replace_all(t, pat, rep);
            assert forall|k: int| 0 <= k < (rep + r).len() implies (rep + r)[k] != c by {
                if k < rep.len() {
                    assert((rep + r)[k] == rep[k]);
                } else {
                    assert((rep + r)[k] == r[k - rep.len()]);
                }
            }
        } else {
            let t = s.drop_first();
            assert forall|k: int| 0 <= k < t.len() implies t[k] != c by {
                assert(t[k] == s[k + 1]);
            }
            lemma_replace_keeps_absent(t, pat, rep, c);
            let r = replace_all(t, pat, rep);
            assert forall|k: int| 0 <= k < (seq![s[0]] + r).len() implies (seq![s[0]] + r)[k] != c by {
                if k > 0 {
                    assert((seq![s[0]] + r)[k] == r[k - 1]);
                }
            }
        }
    }
}

/// Deleting every occurrence of a character leaves none.
pub proof fn lemma_delete_char(s: Seq<char>, c: char)
    ensures
        !replace_all(s, seq![c], seq![]).contains(c),
    decreases s.len(),
{
    if s.len() > 0 {
        if s.take(1) == seq![c] {
            lemma_delete_char(s.skip(1), c);
            assert(Seq::<char>::empty() + replace_all(s.skip(1), seq![c], seq![]) =~= replace_all(
                s.skip(1),
                seq![c],
                seq![],
            ));
        } else {
            assert(s[0] != c) by {
                if s[0] == c {
                    assert(s.take(1) =~= seq![c]);
                }
            }
            lemma_delete_char(s.drop_first(), c);
            let r = replace_all(s.drop_first(), seq![c], seq![]);
            assert forall|k: int| 0 <= k < (seq![s[0]] + r).len() implies (seq![s[0]] + r)[k] != c by {
                if k > 0 {
                    assert((seq![s[0]] + r)[k] == r[k - 1]);
                }
            }
        }
    }
}

/// A text's words hold every character of it that is not white space.
proof fn lemma_words_keep(s: Seq<char>, c: char)
    requires
        !is_white_space(c),
        s.contains(c),
    ensures
        exists|i: int| 0 <= i < words(s).len() && (#[trigger] words(s)[i]).contains(c),
    decreases s.len(),
{
    let k = choose|k: int| 0 <= k < s.len() && s[k] == c;
    if is_white_space(s[0]) {
        assert(s.drop_first()[k - 1] == c);
        lemma_words_keep(s.drop_first(), c);
        let i = choose|i: int|
            0 <= i < words(s.drop_first()).len() && (#[trigger] words(s.drop_first())[i]).contains(c);
        assert(words(s) == words(s.drop_first()));
        assert(words(s)[i].contains(c));
    } else {
        lemma_word_len_bound(s);
        let n = word_len(s) as int;
        let ws = words(s);
        let rest = s.skip(n);
        assert(ws == seq![s.take(n)] + words(rest));
        if k < n {
            assert(s.take(n)[k] == c);
            assert(ws[0] == s.take(n));
            assert(ws[0].contains(c));
        } else {
            assert(rest[k - n] == c);
            lemma_words_keep(rest, c);
            let i = choose|i: int| 0 <= i < words(rest).len() && (#[trigger] words(rest)[i]).contains(c);
            assert(ws[i + 1] == words(rest)[i]);
        }
    }
}

/// Joining keeps every character of every piece.
proof fn lemma_join_keeps(pieces: Seq<Seq<char>>, sep: Seq<char>, i: int, c: char)
    requires
        0 <= i < pieces.len(),
        pieces[i].contains(c),
    ensures
        join(pieces, sep).contains(c),
    decreases pieces.len(),
{
    let k = choose|k: int| 0 <= k < pieces[i].len() && pieces[i][k] == c;
    if pieces.len() == 1 {
    } else if i == pieces.len() - 1 {
        let j = join(pieces.drop_last(), sep) + sep;
        assert((j + pieces.last())[j.len() + k] == c);
    } else {
        assert(pieces.drop_last()[i] == pieces[i]);
        lemma_join_keeps(pieces.drop_last(), sep, i, c);
        let p = join(pieces.drop_last(), sep);
        let q = choose|q: int| 0 <= q < p.len() && p[q] == c;
        assert((p + sep + pieces.last())[q] == c);
    }
}

/// Collapsing white space keeps every character that is not white space.
pub proof fn lemma_collapse_keeps(s: Seq<char>, c: char)
    requires
        !is_white_space(c),
        s.contains(c),
    ensures
        collapse_white_space(s).contains(c),
{
    lemma_words_keep(s, c);
    let i = choose|i: int| 0 <= i < words(s).len() && (#[trigger] words(s)[i]).contains(c);
    lemma_join_keeps(words(s), seq![' '], i, c);
}

/// Replacing keeps a character of the text when the pattern does not hold
/// it or the replacement does.
pub proof fn lemma_replace_keeps_present(s: Seq<char>, pat: Seq<char>, rep: Seq<char>, c: char)
    requires
        s.contains(c),
        !pat.contains(c) || rep.contains(c),
    ensures
        replace_all(s, pat, rep).contains(c),
    decreases s.len(),
{
    let k = choose|k: int| 0 <= k < s.len() && s[k] == c;
    if pat.len() == 0 {
    } else if pat.len() <= s.len() && s.take(pat.len() as int) == pat {
        let t = s.skip(pat.len() as int);
        let r = replace_all(t, pat, rep);
        if k < pat.len() {
            assert(pat[k] == c);
            let q = choose|q: int| 0 <= q < rep.len() && rep[q] == c;
            assert((rep + r)[q] == c);
        } else {
            assert(t[k - pat.len()] == c);
            lemma_replace_keeps_present(t, pat, rep, c);
            let q = choose|q: int| 0 <= q < r.len() && r[q] == c;
            assert((rep + r)[rep.len() + q] == c);
        }
    } else {
        let t = s.drop_first();
        let r = replace_all(t, pat, rep);
        if k == 0 {
            assert((seq![s[0]] + r)[0] == c);
        } else {
            assert(t[k - 1] == c);
            lemma_replace_keeps_present(t, pat, rep, c);
            let q = choose|q: int| 0 <= q < r.len() && r[q] == c;
            assert((seq![s[0]] + r)[q + 1] == c);
        }
    }
}

/// `String::push`: `c` appended at the end of `s`.
#[verifier::external_body]
fn push_char(s: &mut String, c: char)
    ensures
        final(s)@ == old(s)@.push(c),
{
    s.push(c);
}

/// The characters of a string slice, in order.
pub fn chars_of(s: &str) -> (r: Vec<char>)
    ensures
        r@ == s@,
{
    let mut r: Vec<char> = Vec::new();
    for c in it: s.chars()
        invariant
            r@ == it.seq().take(it.index() as int),
    {
        r.push(c);
        assert(r@ =~= it.seq().take(it.index() + 1));
    }
    r
}

/// The string spelled by a character vector.
pub fn string_of(v: &Vec<char>) -> (r: String)
    ensures
        r@ == v@,
{
    let mut r = String::new();
    let mut k: usize = 0;
    while k < v.len()
        invariant
            k <= v@.len(),
            r@ == v@.take(k as int),
        decreases v.len() - k,
    {
        push_char(&mut r, v[k]);
        k = k + 1;
        assert(r@ =~= v@.take(k as int));
    }
    assert(v@.take(v@.len() as int) =~= v@);
    r
}

/// `char::to_ascii_lowercase`: `A` to `Z` become `a` to `z`, all else stays.
pub open spec fn ascii_lower_char(c: char) -> char {
    if 'A' <= c <= 'Z' {
        ((c as u32) + 32) as char
    } else {
        c
    }
}

/// `str::to_ascii_lowercase`.
pub open spec fn ascii_lowercase(s: Seq<char>) -> Seq<char> {
    s.map_values(|c: char| ascii_lower_char(c))
}

/// What `str::to_lowercase` returns for a text: its lowercase mapping under
/// the Unicode case tables, character by character, with the final-sigma rule.
pub uninterp spec fn unicode_lowercase(s: Seq<char>) -> Seq<char>;

/// The lower case of a text as `str::to_lowercase` gives it: the ASCII lower
/// case on an all-ASCII text, the Unicode mapping otherwise.
pub open spec fn lowercase(s: Seq<char>) -> Seq<char> {
    if is_ascii_chars(s) {
        ascii_lowercase(s)
    } else {
        unicode_lowercase(s)
    }
}

/// `str::to_lowercase`, which maps each character by `char::to_lowercase`
/// (the Unicode case tables; a character without a lower-case mapping stays
/// itself). The contract claims that the result depends on the text alone;
/// that on an all-ASCII text it is the ASCII lower case (`to_ascii_lowercase`,
/// which std offers for lower-casing ASCII only); and that the result starts
/// with `//` exactly when the text does: `/` has no lower-case mapping, and no
/// character's lower-case mapping holds a `/`. What the mapping does beyond
/// that the Unicode tables say, and nothing here states them.
#[verifier::external_body]
pub(crate) fn to_lowercase(s: &str) -> (r: String)
    ensures
        r@ == unicode_lowercase(s@),
        is_ascii_chars(s@) ==> r@ == ascii_lowercase(s@),
        starts_with(r@, seq!['/', '/']) <==> starts_with(s@, seq!['/', '/']),
{
    s.to_lowercase()
}

/// Text before which no occurrence of the pattern can start is copied as is.
pub proof fn lemma_replace_skips_prefix(a: Seq<char>, b: Seq<char>, pat: Seq<char>, rep: Seq<char>)
    requires
        pat.len() > 0,
        !a.contains(pat[0]),
    ensures
        replace_all(a + b, pat, rep) == a + replace_all(b, pat, rep),
    decreases a.len(),
{
    if a.len() == 0 {
        assert(a + b =~= b);
    } else {
        let s = a + b;
        assert(s[0] == a[0]);
        if pat.len() <= s.len() && s.take(pat.len() as int) == pat {
            assert(s.take(pat.len() as int)[0] == pat[0]);
        }
        let t = a.drop_first();
        assert(!t.contains(pat[0])) by {
            if t.contains(pat[0]) {
                let k = choose|k: int| 0 <= k < t.len() && t[k] == pat[0];
                assert(a[k + 1] == pat[0]);
            }
        }
        assert(s.drop_first() =~= t + b);
        lemma_replace_skips_prefix(t, b, pat, rep);
        assert(seq![a[0]] + (t + replace_all(b, pat, rep)) =~= a + replace_all(b, pat, rep));
    }
}

/// A text that never holds the pattern's first character is left as is.
pub proof fn lemma_replace_absent(s: Seq<char>, pat: Seq<char>, rep: Seq<char>)
    requires
        pat.len() > 0,
        !s.contains(pat[0]),
    ensures
        replace_all(s, pat, rep) == s,
{
    lemma_replace_skips_prefix(s, seq![], pat, rep);
    assert(s + Seq::<char>::empty() =~= s);
}

/// An occurrence of the pattern at the front is replaced.
pub proof fn lemma_replace_front(b: Seq<char>, pat: Seq<char>, rep: Seq<char>)
    requires
        pat.len() > 0,
    ensures
        replace_all(pat + b, pat, rep) == rep + replace_all(b, pat, rep),
{
    let s = pat + b;
    assert(s.take(pat.len() as int) =~= pat);
    assert(s.skip(pat.len() as int) =~= b);
}

/// Line endings: a line ended by `\r\n` or by `\n` loses its ending, and
/// the text after the ending is cut into lines in turn; a last line with no
/// ending is kept whole.
pub proof fn law_line_endings(a: Seq<char>, rest: Seq<char>)
    requires
        !a.contains('\n'),
    ensures
        lines(a + seq!['\r', '\n'] + rest) == seq![a] + lines(rest),
        a.len() == 0 || a.last() != '\r' ==> lines(a + seq!['\n'] + rest) == seq![a] + lines(rest),
        a.len() > 0 ==> lines(a) == seq![a],
{
    let s = a + seq!['\r', '\n'] + rest;
    assert forall|m: int| 0 <= m < a.len() + 1 implies s[m] != '\n' by {
        if m < a.len() {
            assert(s[m] == a[m]);
            assert(a[m] != '\n');
        }
    }
    lemma_before_char_at(s, '\n', a.len() + 1int);
    assert(s.take(a.len() + 1int) =~= a.push('\r'));
    assert(strip_carriage_return(a.push('\r')) =~= a);
    assert(s.skip(a.len() + 2int) =~= rest);
    let u = a + seq!['\n'] + rest;
    assert forall|m: int| 0 <= m < a.len() implies u[m] != '\n' by {
        assert(u[m] == a[m]);
        assert(a[m] != '\n');
    }
    lemma_before_char_at(u, '\n', a.len() as int);
    assert(u.take(a.len() as int) =~= a);
    assert(u.skip(a.len() + 1int) =~= rest);
    if a.len() > 0 {
        lemma_before_char_at(a, '\n', a.len() as int);
        assert(a.take(a.len() as int) =~= a);
    }
}

/// White space is exactly the Unicode `White_Space` code points: U+0009 to
/// U+000D, U+0020, U+0085, U+00A0, U+1680, U+2000 to U+200A, U+2028, U+2029,
/// U+202F, U+205F and U+3000; in particular every ASCII character other than
/// tab, line feed, vertical tab, form feed, carriage return and space is none.
pub proof fn law_white_space_code_points(c: char)
    ensures
        is_white_space(c) <==> ({
            let u = c as u32;
            ||| 9 <= u <= 13
            ||| u == 32
            ||| u == 133
            ||| u == 160
            ||| u == 5760
            ||| 8192 <= u <= 8202
            ||| u == 8232
            ||| u == 8233
            ||| u == 8239
            ||| u == 8287
            ||| u == 12288
        }),
{
}

} // verus!
