//! Character level helpers over strings, stated over `Seq<char>`.

use vstd::prelude::*;

verus! {

/// Unicode `White_Space`, the property that `char::is_whitespace` and `str::trim` use.
pub open spec fn is_ws(c: char) -> bool {
    ||| ('\u{9}' <= c && c <= '\u{d}')
    ||| c == ' '
    ||| c == '\u{85}'
    ||| c == '\u{a0}'
    ||| c == '\u{1680}'
    ||| ('\u{2000}' <= c && c <= '\u{200a}')
    ||| c == '\u{2028}'
    ||| c == '\u{2029}'
    ||| c == '\u{202f}'
    ||| c == '\u{205f}'
    ||| c == '\u{3000}'
}

pub fn char_is_ws(c: char) -> (r: bool)
    ensures
        r == is_ws(c),
{
    ('\u{9}' <= c && c <= '\u{d}') || c == ' ' || c == '\u{85}' || c == '\u{a0}' || c == '\u{1680}'
        || ('\u{2000}' <= c && c <= '\u{200a}') || c == '\u{2028}' || c == '\u{2029}'
        || c == '\u{202f}' || c == '\u{205f}' || c == '\u{3000}'
}

/// `s` without its leading white space.
pub open spec fn trim_start(s: Seq<char>) -> Seq<char>
    decreases s.len(),
{
    if s.len() > 0 && is_ws(s[0]) {
        trim_start(s.drop_first())
    } else {
        s
    }
}

/// `s` without its trailing white space.
pub open spec fn trim_end(s: Seq<char>) -> Seq<char>
    decreases s.len(),
{
    if s.len() > 0 && is_ws(s.last()) {
        trim_end(s.drop_last())
    } else {
        s
    }
}

/// What `str::trim` gives back.
pub open spec fn trim(s: Seq<char>) -> Seq<char> {
    trim_end(trim_start(s))
}

/// Index of the first `c` in `s`, or `s.len()` where there is none.
pub open spec fn first_index(s: Seq<char>, c: char) -> nat
    decreases s.len(),
{
    if s.len() == 0 {
        0
    } else if s[0] == c {
        0
    } else {
        1 + first_index(s.drop_first(), c)
    }
}

/// The pieces of `s` between the occurrences of `c`, as `str::split` gives them.
pub open spec fn split(s: Seq<char>, c: char) -> Seq<Seq<char>>
    decreases s.len(),
{
    let i = first_index(s, c);
    if i < s.len() {
        seq![s.take(i as int)] + split(s.skip(i + 1 as int), c)
    } else {
        seq![s]
    }
}

/// The number of occurrences of `c` in `s`.
pub open spec fn count_char(s: Seq<char>, c: char) -> nat
    decreases s.len(),
{
    if s.len() == 0 {
        0
    } else {
        (if s[0] == c { 1nat } else { 0nat }) + count_char(s.drop_first(), c)
    }
}

/// The pieces joined, with `sep` between two neighbours.
pub open spec fn join(pieces: Seq<Seq<char>>, sep: Seq<char>) -> Seq<char>
    decreases pieces.len(),
{
    if pieces.len() == 0 {
        Seq::empty()
    } else if pieces.len() == 1 {
        pieces[0]
    } else {
        join(pieces.drop_last(), sep) + sep + pieces.last()
    }
}

pub open spec fn ends_with(s: Seq<char>, suffix: Seq<char>) -> bool {
    suffix.len() <= s.len() && s.skip(s.len() - suffix.len()) == suffix
}

/// ASCII lower case of one character, as `char::to_ascii_lowercase`.
pub open spec fn ascii_lower(c: char) -> char {
    if 'A' <= c && c <= 'Z' {
        ((c as u32) + 32) as char
    } else {
        c
    }
}

/// `str::eq_ignore_ascii_case`.
pub open spec fn eq_ignore_ascii_case(s: Seq<char>, t: Seq<char>) -> bool {
    s.len() == t.len() && forall|i: int| 0 <= i < s.len() ==> ascii_lower(#[trigger] s[i]) == ascii_lower(t[i])
}

/// Lexicographic order of two character sequences, the order of `str` and `String`:
/// negative when `s` comes first, zero when equal, positive when `t` comes first.
pub open spec fn lex_compare(s: Seq<char>, t: Seq<char>) -> int
    decreases s.len(),
{
    if s.len() == 0 {
        if t.len() == 0 { 0 } else { -1 }
    } else if t.len() == 0 {
        1
    } else if s[0] < t[0] {
        -1
    } else if s[0] > t[0] {
        1
    } else {
        lex_compare(s.drop_first(), t.drop_first())
    }
}

pub proof fn lemma_first_index(s: Seq<char>, c: char, i: int)
    requires
        0 <= i <= s.len(),
        forall|j: int| 0 <= j < i ==> s[j] != c,
        i < s.len() ==> s[i] == c,
    ensures
        first_index(s, c) == i,
    decreases i,
{
    if i > 0 {
        lemma_first_index(s.drop_first(), c, i - 1);
    }
}

pub proof fn lemma_first_index_bound(s: Seq<char>, c: char)
    ensures
        first_index(s, c) <= s.len(),
        first_index(s, c) < s.len() ==> s[first_index(s, c) as int] == c,
        forall|j: int| 0 <= j < first_index(s, c) ==> s[j] != c,
    decreases s.len(),
{
    if s.len() > 0 && s[0] != c {
        lemma_first_index_bound(s.drop_first(), c);
        assert forall|j: int| 0 <= j < first_index(s, c) implies s[j] != c by {
            if j > 0 {
                assert(s[j] == s.drop_first()[j - 1]);
            }
        }
    }
}

/// A text without `c` is one piece.
pub proof fn lemma_split_no_sep(s: Seq<char>, c: char)
    requires
        !s.contains(c),
    ensures
        split(s, c) == seq![s],
{
    lemma_first_index_bound(s, c);
    if first_index(s, c) < s.len() {
        assert(s[first_index(s, c) as int] == c);
    }
}

/// Splitting `x`, `c`, `y` where `y` holds no `c` gives the pieces of `x`, then `y`.
pub proof fn lemma_split_append(x: Seq<char>, y: Seq<char>, c: char)
    requires
        !y.contains(c),
    ensures
        split(x + seq![c] + y, c) == split(x, c) + seq![y],
    decreases x.len(),
{
    let s = x + seq![c] + y;
    lemma_first_index_bound(x, c);
    let i = first_index(x, c);
    if i < x.len() {
        lemma_first_index(s, c, i as int);
        assert(s.take(i as int) =~= x.take(i as int));
        assert(s.skip(i + 1int) =~= x.skip(i + 1int) + seq![c] + y);
        lemma_split_append(x.skip(i + 1int), y, c);
    } else {
        lemma_first_index(s, c, x.len() as int);
        assert(s.take(x.len() as int) =~= x);
        assert(s.skip(x.len() + 1int) =~= y);
        lemma_split_no_sep(y, c);
        lemma_split_no_sep(x, c);
        assert(!x.contains(c)) by {
            if x.contains(c) {
                let j = choose|j: int| 0 <= j < x.len() && x[j] == c;
            }
        }
    }
}

/// Pieces without `c`, joined with `c`, split back into the same pieces.
pub proof fn lemma_split_join(pieces: Seq<Seq<char>>, c: char)
    requires
        pieces.len() >= 1,
        forall|i: int| 0 <= i < pieces.len() ==> !(#[trigger] pieces[i]).contains(c),
    ensures
        split(join(pieces, seq![c]), c) == pieces,
    decreases pieces.len(),
{
    if pieces.len() == 1 {
        lemma_split_no_sep(pieces[0], c);
        assert(seq![pieces[0]] =~= pieces);
    } else {
        let init = pieces.drop_last();
        lemma_split_join(init, c);
        assert(!pieces.last().contains(c));
        lemma_split_append(join(init, seq![c]), pieces.last(), c);
        assert(init + seq![pieces.last()] =~= pieces);
    }
}

/// Pieces and separator without `c` join into a text without `c`.
pub proof fn lemma_join_lacks(pieces: Seq<Seq<char>>, sep: Seq<char>, c: char)
    requires
        !sep.contains(c),
        forall|i: int| 0 <= i < pieces.len() ==> !(#[trigger] pieces[i]).contains(c),
    ensures
        !join(pieces, sep).contains(c),
    decreases pieces.len(),
{
    if pieces.len() > 1 {
        lemma_join_lacks(pieces.drop_last(), sep, c);
        let j = join(pieces.drop_last(), sep);
        let l = pieces.last();
        assert(!l.contains(c));
        assert forall|q: int| 0 <= q < (j + sep + l).len() implies (j + sep + l)[q] != c by {
            if q < j.len() {
                assert((j + sep + l)[q] == j[q]);
            } else if q < j.len() + sep.len() {
                assert((j + sep + l)[q] == sep[q - j.len()]);
            } else {
                assert((j + sep + l)[q] == l[q - j.len() - sep.len()]);
            }
        }
    } else if pieces.len() == 1 {
        assert(!pieces[0].contains(c));
    }
}

/// Non-empty pieces join into a text that starts as the first and ends as the last.
pub proof fn lemma_join_ends(pieces: Seq<Seq<char>>, sep: Seq<char>)
    requires
        pieces.len() >= 1,
        forall|i: int| 0 <= i < pieces.len() ==> (#[trigger] pieces[i]).len() > 0,
    ensures
        join(pieces, sep).len() > 0,
        join(pieces, sep)[0] == pieces[0][0],
        join(pieces, sep).last() == pieces.last().last(),
    decreases pieces.len(),
{
    if pieces.len() > 1 {
        lemma_join_ends(pieces.drop_last(), sep);
        assert(pieces.drop_last()[0] == pieces[0]);
        assert(pieces.last().len() > 0);
    } else {
        assert(pieces[0].len() > 0);
    }
}

/// A text that trims to itself neither starts nor ends with white space.
pub proof fn lemma_trim_fixed(s: Seq<char>)
    requires
        trim(s) == s,
        s.len() > 0,
    ensures
        !is_ws(s[0]),
        !is_ws(s.last()),
{
    lemma_trim_start_len(s);
    lemma_trim_end_len(trim_start(s));
    if is_ws(s[0]) {
        lemma_trim_start_len(s.drop_first());
    }
    if trim_start(s) == s && is_ws(s.last()) {
        lemma_trim_end_len(s.drop_last());
    }
}

pub proof fn lemma_trim_start_len(s: Seq<char>)
    ensures
        trim_start(s).len() <= s.len(),
    decreases s.len(),
{
    if s.len() > 0 && is_ws(s[0]) {
        lemma_trim_start_len(s.drop_first());
    }
}

pub proof fn lemma_trim_end_len(s: Seq<char>)
    ensures
        trim_end(s).len() <= s.len(),
    decreases s.len(),
{
    if s.len() > 0 && is_ws(s.last()) {
        lemma_trim_end_len(s.drop_last());
    }
}

/// A text that neither starts nor ends with white space trims to itself.
pub proof fn lemma_trim_clean(s: Seq<char>)
    requires
        s.len() > 0,
        !is_ws(s[0]),
        !is_ws(s.last()),
    ensures
        trim(s) == s,
{
}

/// `trim_start` drops a prefix; what is left is empty or starts with no white space.
pub proof fn lemma_trim_start_at(s: Seq<char>) -> (i: int)
    ensures
        0 <= i <= s.len(),
        trim_start(s) == s.skip(i),
        trim_start(s).len() > 0 ==> !is_ws(trim_start(s)[0]),
    decreases s.len(),
{
    if s.len() > 0 && is_ws(s[0]) {
        let k = lemma_trim_start_at(s.drop_first());
        assert(s.drop_first().skip(k) =~= s.skip(k + 1));
        k + 1
    } else {
        assert(s.skip(0) =~= s);
        0
    }
}

/// `trim_end` keeps a prefix; it is empty or ends with no white space.
pub proof fn lemma_trim_end_at(s: Seq<char>) -> (j: int)
    ensures
        0 <= j <= s.len(),
        trim_end(s) == s.take(j),
        trim_end(s).len() > 0 ==> !is_ws(trim_end(s).last()),
    decreases s.len(),
{
    if s.len() > 0 && is_ws(s.last()) {
        let k = lemma_trim_end_at(s.drop_last());
        assert(s.drop_last().take(k) =~= s.take(k));
        k
    } else {
        assert(s.take(s.len() as int) =~= s);
        s.len() as int
    }
}

/// A trimmed text is a piece of the text, and trimming it again changes nothing.
pub proof fn lemma_trim_idempotent(s: Seq<char>)
    ensures
        trim(trim(s)) == trim(s),
        forall|c: char| !s.contains(c) ==> !trim(s).contains(c),
{
    let i = lemma_trim_start_at(s);
    let u = trim_start(s);
    let j = lemma_trim_end_at(u);
    let v = trim(s);
    assert(v =~= s.subrange(i, i + j));
    if v.len() > 0 {
        assert(v[0] == u[0]);
        lemma_trim_clean(v);
    }
    assert forall|c: char| !s.contains(c) implies !trim(s).contains(c) by {
        if v.contains(c) {
            let q = choose|q: int| 0 <= q < v.len() && v[q] == c;
            assert(s[i + q] == c);
        }
    }
}

/// The pieces of a split hold no separator, and no character the whole text lacks.
pub proof fn lemma_split_pieces_lack(s: Seq<char>, c: char)
    ensures
        forall|i: int| 0 <= i < split(s, c).len() ==> !(#[trigger] split(s, c)[i]).contains(c),
        forall|i: int, d: char| #![trigger split(s, c)[i].contains(d)] 0 <= i < split(s, c).len() && !s.contains(d) ==> !split(s, c)[i].contains(d),
    decreases s.len(),
{
    lemma_first_index_bound(s, c);
    let k = first_index(s, c);
    let head = s.take(k as int);
    assert forall|d: char| (d == c || !s.contains(d)) implies !head.contains(d) by {
        if head.contains(d) {
            let q = choose|q: int| 0 <= q < head.len() && head[q] == d;
            assert(s[q] == d);
        }
    }
    if k < s.len() {
        let rest = s.skip(k + 1int);
        lemma_split_pieces_lack(rest, c);
        assert forall|d: char| !s.contains(d) implies !rest.contains(d) by {
            if rest.contains(d) {
                let q = choose|q: int| 0 <= q < rest.len() && rest[q] == d;
                assert(s[k + 1 + q] == d);
            }
        }
        assert forall|i: int| 0 <= i < split(s, c).len() implies !(#[trigger] split(s, c)[i]).contains(c) by {
            if i > 0 {
                assert(split(s, c)[i] == split(rest, c)[i - 1]);
            }
        }
        assert forall|i: int, d: char| #![trigger split(s, c)[i].contains(d)] 0 <= i < split(s, c).len() && !s.contains(d) implies !split(s, c)[i].contains(d) by {
            if i > 0 {
                assert(split(s, c)[i] == split(rest, c)[i - 1]);
            }
        }
    } else {
        assert(head =~= s);
    }
}

pub proof fn lemma_trim_start_skip(s: Seq<char>, i: int)
    requires
        0 <= i < s.len(),
        is_ws(s[i]),
    ensures
        trim_start(s.skip(i)) == trim_start(s.skip(i + 1)),
{
    assert(s.skip(i).drop_first() =~= s.skip(i + 1));
}

pub proof fn lemma_trim_end_sub(s: Seq<char>, i: int, j: int)
    requires
        0 <= i < j <= s.len(),
        is_ws(s[j - 1]),
    ensures
        trim_end(s.subrange(i, j)) == trim_end(s.subrange(i, j - 1)),
{
    assert(s.subrange(i, j).drop_last() =~= s.subrange(i, j - 1));
}

/// The characters of `s`, in order.
pub fn chars_of(s: &str) -> (v: Vec<char>)
    ensures
        v@ == s@,
{
    let n = s.unicode_len();
    let mut v: Vec<char> = Vec::new();
    let mut i: usize = 0;
    while i < n
        invariant
            n == s@.len(),
            i <= n,
            v@ == s@.take(i as int),
        decreases n - i,
    {
        let c = s.get_char(i);
        v.push(c);
        i = i + 1;
        assert(v@ =~= s@.take(i as int));
    }
    assert(v@ =~= s@);
    v
}

/// An owned copy of the characters `from..to` of `s`.
pub fn substring(s: &str, from: usize, to: usize) -> (r: String)
    requires
        from <= to <= s@.len(),
    ensures
        r@ == s@.subrange(from as int, to as int),
{
    let piece = s.substring_char(from, to);
    piece.to_owned()
}

/// `str::trim`, as an owned string.
pub fn trimmed(s: &str) -> (r: String)
    ensures
        r@ == trim(s@),
{
    let cs = chars_of(s);
    let n = cs.len();
    let mut i: usize = 0;
    assert(s@.skip(0) =~= s@);
    while i < n && char_is_ws(cs[i])
        invariant
            cs@ == s@,
            n == s@.len(),
            i <= n,
            trim_start(s@) == trim_start(s@.skip(i as int)),
        decreases n - i,
    {
        proof {
            lemma_trim_start_skip(s@, i as int);
        }
        i = i + 1;
    }
    assert(trim_start(s@.skip(i as int)) == s@.skip(i as int));
    assert(s@.skip(i as int) =~= s@.subrange(i as int, n as int));
    let mut j: usize = n;
    while j > i && char_is_ws(cs[j - 1])
        invariant
            cs@ == s@,
            n == s@.len(),
            i <= j <= n,
            trim(s@) == trim_end(s@.subrange(i as int, j as int)),
        decreases j,
    {
        proof {
            lemma_trim_end_sub(s@, i as int, j as int);
        }
        j = j - 1;
    }
    substring(s, i, j)
}

/// `true` when the first character of `s` is `c`.
pub fn starts_with_char(s: &str, c: char) -> (r: bool)
    ensures
        r == (s@.len() > 0 && s@[0] == c),
{
    let n = s.unicode_len();
    n > 0 && s.get_char(0) == c
}

/// `true` when the last character of `s` is `c`.
pub fn ends_with_char(s: &str, c: char) -> (r: bool)
    ensures
        r == (s@.len() > 0 && s@.last() == c),
{
    let n = s.unicode_len();
    n > 0 && s.get_char(n - 1) == c
}

/// `str::ends_with` for a string suffix.
pub fn ends_with_str(s: &str, suffix: &str) -> (r: bool)
    ensures
        r == ends_with(s@, suffix@),
{
    let cs = chars_of(s);
    let ss = chars_of(suffix);
    let n = cs.len();
    let m = ss.len();
    if m > n {
        return false;
    }
    let mut k: usize = 0;
    while k < m
        invariant
            cs@ == s@,
            ss@ == suffix@,
            n == s@.len(),
            m == suffix@.len(),
            m <= n,
            k <= m,
            forall|q: int| 0 <= q < k ==> s@[n - m + q] == suffix@[q],
        decreases m - k,
    {
        if cs[n - m + k] != ss[k] {
            assert(s@.skip(n - m)[k as int] != suffix@[k as int]);
            return false;
        }
        k = k + 1;
    }
    assert(s@.skip(n - m) =~= suffix@);
    true
}

/// Index of the first `c` at or after `from` in `cs`, or `cs.len()` where there is none.
pub fn find_char_from(cs: &Vec<char>, from: usize, c: char) -> (r: usize)
    requires
        from <= cs@.len(),
    ensures
        from <= r <= cs@.len(),
        r < cs@.len() ==> cs@[r as int] == c,
        forall|j: int| from <= j < r ==> cs@[j] != c,
        first_index(cs@.skip(from as int), c) == r - from,
{
    let mut i = from;
    while i < cs.len() && cs[i] != c
        invariant
            from <= i <= cs@.len(),
            forall|j: int| from <= j < i ==> cs@[j] != c,
        decreases cs@.len() - i,
    {
        i = i + 1;
    }
    proof {
        let t = cs@.skip(from as int);
        assert forall|j: int| 0 <= j < i - from implies t[j] != c by {
            assert(t[j] == cs@[from + j]);
        }
        lemma_first_index(t, c, i - from);
    }
    i
}

/// `true` when `c` occurs in `s`.
pub fn contains_char(s: &str, c: char) -> (r: bool)
    ensures
        r == s@.contains(c),
        r == (first_index(s@, c) < s@.len()),
{
    let cs = chars_of(s);
    assert(cs@.skip(0) =~= cs@);
    let i = find_char_from(&cs, 0, c);
    proof {
        if !(i < cs.len()) {
            assert forall|j: int| 0 <= j < s@.len() implies s@[j] != c by {}
        } else {
            assert(s@[i as int] == c);
        }
    }
    i < cs.len()
}

pub open spec fn views(v: Seq<String>) -> Seq<Seq<char>> {
    v.map_values(|x: String| x@)
}

/// `str::split` on one character, each piece as an owned string.
pub fn split_on(s: &str, c: char) -> (r: Vec<String>)
    ensures
        views(r@) == split(s@, c),
{
    let cs = chars_of(s);
    let n = cs.len();
    let mut pieces: Vec<String> = Vec::new();
    let mut start: usize = 0;
    assert(s@.skip(0) =~= s@);
    loop
        invariant
            cs@ == s@,
            n == s@.len(),
            start <= n,
            views(pieces@) + split(s@.skip(start as int), c) == split(s@, c),
        decreases n - start,
    {
        let k = find_char_from(&cs, start, c);
        let ghost rest = s@.skip(start as int);
        if k < n {
            let piece = substring(s, start, k);
            proof {
                assert(rest.take((k - start) as int) =~= s@.subrange(start as int, k as int));
                assert(rest.skip((k - start) + 1) =~= s@.skip(k + 1));
                assert(split(rest, c) == seq![rest.take((k - start) as int)] + split(
                    rest.skip((k - start) + 1),
                    c,
                ));
            }
            let ghost old_pieces = pieces@;
            pieces.push(piece);
            assert(views(pieces@) =~= views(old_pieces) + seq![s@.subrange(start as int, k as int)]);
            assert(views(pieces@) + split(s@.skip(k + 1), c) =~= views(old_pieces) + split(rest, c));
            start = k + 1;
        } else {
            let piece = substring(s, start, n);
            assert(rest =~= s@.subrange(start as int, n as int));
            let ghost old_pieces = pieces@;
            pieces.push(piece);
            assert(views(pieces@) =~= views(old_pieces) + split(rest, c));
            return pieces;
        }
    }
}

/// `s` followed by `t`, as a new string.
pub fn concat_str(s: &str, t: &str) -> (r: String)
    ensures
        r@ == s@ + t@,
{
    let mut r = s.to_owned();
    r.append(t);
    r
}

/// `str::eq_ignore_ascii_case`.
pub fn str_eq_ignore_ascii_case(s: &str, t: &str) -> (r: bool)
    ensures
        r == eq_ignore_ascii_case(s@, t@),
{
    let a = chars_of(s);
    let b = chars_of(t);
    if a.len() != b.len() {
        return false;
    }
    let mut i: usize = 0;
    while i < a.len()
        invariant
            a@ == s@,
            b@ == t@,
            a@.len() == b@.len(),
            i <= a@.len(),
            forall|j: int| 0 <= j < i ==> ascii_lower(#[trigger] s@[j]) == ascii_lower(t@[j]),
        decreases a@.len() - i,
    {
        if lower_ascii_char(a[i]) != lower_ascii_char(b[i]) {
            return false;
        }
        i = i + 1;
    }
    true
}

/// `char::to_ascii_lowercase`.
pub fn lower_ascii_char(c: char) -> (r: char)
    ensures
        r == ascii_lower(c),
{
    if 'A' <= c && c <= 'Z' {
        let u: u32 = c as u32;
        let l: u32 = u + 32;
        assert(0x61 <= l <= 0x7a);
        // every value between 'a' and 'z' is a char
        char_from_ascii(l)
    } else {
        c
    }
}

/// The character of an ASCII code.
fn char_from_ascii(u: u32) -> (c: char)
    requires
        u < 128,
    ensures
        c == u as char,
{
    let b: u8 = u as u8;
    b as char
}

} // verus!

verus! {

pub proof fn lemma_lex_compare_antisym(s: Seq<char>, t: Seq<char>)
    ensures
        lex_compare(s, t) == -lex_compare(t, s),
        -1 <= lex_compare(s, t) <= 1,
    decreases s.len(),
{
    if s.len() > 0 && t.len() > 0 && s[0] == t[0] {
        lemma_lex_compare_antisym(s.drop_first(), t.drop_first());
    }
}

pub proof fn lemma_lex_compare_equal(s: Seq<char>, t: Seq<char>)
    ensures
        lex_compare(s, t) == 0 <==> s == t,
    decreases s.len(),
{
    if s.len() > 0 && t.len() > 0 {
        lemma_lex_compare_equal(s.drop_first(), t.drop_first());
        if s[0] == t[0] {
            if s.drop_first() == t.drop_first() {
                assert(s =~= seq![s[0]] + s.drop_first());
                assert(t =~= seq![t[0]] + t.drop_first());
            }
        }
        if s == t {
            assert(s.drop_first() == t.drop_first());
        }
    } else if s.len() == 0 && t.len() == 0 {
        assert(s =~= t);
    }
}

pub proof fn lemma_lex_compare_trans(a: Seq<char>, b: Seq<char>, c: Seq<char>)
    requires
        lex_compare(a, b) <= 0,
        lex_compare(b, c) <= 0,
    ensures
        lex_compare(a, c) <= 0,
        (lex_compare(a, b) < 0 || lex_compare(b, c) < 0) ==> lex_compare(a, c) < 0,
    decreases a.len(),
{
    if a.len() > 0 && b.len() > 0 && c.len() > 0 {
        if a[0] == b[0] && b[0] == c[0] {
            lemma_lex_compare_trans(a.drop_first(), b.drop_first(), c.drop_first());
        }
    }
}

/// Lexicographic comparison of two strings: -1, 0 or 1.
pub fn compare_str(s: &str, t: &str) -> (r: i8)
    ensures
        r as int == lex_compare(s@, t@),
{
    let a = chars_of(s);
    let b = chars_of(t);
    let mut i: usize = 0;
    assert(a@.skip(0) =~= a@);
    assert(b@.skip(0) =~= b@);
    loop
        invariant
            a@ == s@,
            b@ == t@,
            i <= a@.len(),
            i <= b@.len(),
            lex_compare(s@, t@) == lex_compare(a@.skip(i as int), b@.skip(i as int)),
        decreases a@.len() - i,
    {
        if i == a.len() {
            if i == b.len() {
                return 0;
            } else {
                return -1;
            }
        }
        if i == b.len() {
            return 1;
        }
        let x = a[i];
        let y = b[i];
        if x < y {
            return -1;
        }
        if x > y {
            return 1;
        }
        assert(a@.skip(i as int).drop_first() =~= a@.skip(i + 1));
        assert(b@.skip(i as int).drop_first() =~= b@.skip(i + 1));
        i = i + 1;
    }
}

} // verus!

verus! {

/// `true` when both hold the same characters.
pub fn str_equals(s: &str, t: &str) -> (r: bool)
    ensures
        r == (s@ == t@),
{
    let c = compare_str(s, t);
    proof {
        lemma_lex_compare_equal(s@, t@);
    }
    c == 0
}

} // verus!

verus! {

/// Index of the first occurrence of `pat` in `s`, or `s.len()` where there is none.
pub open spec fn first_occurrence(s: Seq<char>, pat: Seq<char>) -> nat
    decreases s.len(),
{
    if s.len() < pat.len() {
        s.len()
    } else if s.take(pat.len() as int) == pat {
        0
    } else if s.len() == 0 {
        0
    } else {
        1 + first_occurrence(s.drop_first(), pat)
    }
}

pub open spec fn occurs_at(s: Seq<char>, pat: Seq<char>, i: int) -> bool {
    0 <= i && i + pat.len() <= s.len() && s.subrange(i, i + pat.len()) == pat
}

pub proof fn lemma_first_occurrence(s: Seq<char>, pat: Seq<char>, i: int)
    requires
        0 <= i <= s.len(),
        forall|j: int| 0 <= j < i ==> !occurs_at(s, pat, j),
        occurs_at(s, pat, i) || i + pat.len() > s.len(),
    ensures
        first_occurrence(s, pat) == (if occurs_at(s, pat, i) { i } else { s.len() as int }),
    decreases i,
{
    if s.len() < pat.len() {
    } else if i == 0 {
        if occurs_at(s, pat, 0) {
            assert(s.subrange(0, pat.len() as int) =~= s.take(pat.len() as int));
        } else {
            assert(s.len() >= pat.len());
            assert(false);
        }
    } else {
        assert(!occurs_at(s, pat, 0));
        assert(s.subrange(0, pat.len() as int) =~= s.take(pat.len() as int));
        let t = s.drop_first();
        assert forall|j: int| 0 <= j < i - 1 implies !occurs_at(t, pat, j) by {
            assert(!occurs_at(s, pat, j + 1));
            if j + pat.len() <= t.len() {
                assert(t.subrange(j, j + pat.len()) =~= s.subrange(j + 1, j + 1 + pat.len()));
            }
        }
        if occurs_at(s, pat, i) {
            assert(t.subrange(i - 1, i - 1 + pat.len()) =~= s.subrange(i, i + pat.len()));
        } else if i - 1 + pat.len() <= t.len() {
            assert(false);
        }
        lemma_first_occurrence(t, pat, i - 1);
    }
}

/// `pat` occurs somewhere in `s` exactly where it occurs at `first_occurrence`.
pub proof fn lemma_first_occurrence_finds(s: Seq<char>, pat: Seq<char>)
    ensures
        (exists|i: int| occurs_at(s, pat, i)) <==> occurs_at(s, pat, first_occurrence(s, pat) as int),
    decreases s.len(),
{
    if s.len() < pat.len() {
        assert forall|i: int| !occurs_at(s, pat, i) by {}
    } else if s.take(pat.len() as int) == pat {
        assert(s.subrange(0, pat.len() as int) =~= s.take(pat.len() as int));
    } else if s.len() == 0 {
        assert(s.take(0) =~= pat);
    } else {
        let t = s.drop_first();
        lemma_first_occurrence_finds(t, pat);
        let k = first_occurrence(t, pat) as int;
        assert forall|j: int| occurs_at(t, pat, j) implies occurs_at(s, pat, j + 1) by {
            assert(s.subrange(j + 1, j + 1 + pat.len()) =~= t.subrange(j, j + pat.len()));
        }
        assert forall|i: int| occurs_at(s, pat, i) implies i >= 1 && occurs_at(t, pat, i - 1) by {
            if i == 0 {
                assert(s.subrange(0, pat.len() as int) =~= s.take(pat.len() as int));
            }
            assert(t.subrange(i - 1, i - 1 + pat.len()) =~= s.subrange(i, i + pat.len()));
        }
        if occurs_at(s, pat, k + 1) {
            assert(occurs_at(t, pat, k));
        }
        if occurs_at(t, pat, k) {
            assert(occurs_at(s, pat, k + 1));
        }
    }
}

/// Where `pat` does not occur at `first_occurrence`, that is the length of `s`.
pub proof fn lemma_first_occurrence_miss(s: Seq<char>, pat: Seq<char>)
    ensures
        !occurs_at(s, pat, first_occurrence(s, pat) as int) ==> first_occurrence(s, pat) == s.len(),
    decreases s.len(),
{
    if s.len() >= pat.len() && s.take(pat.len() as int) != pat && s.len() > 0 {
        let t = s.drop_first();
        lemma_first_occurrence_miss(t, pat);
        let k = first_occurrence(t, pat) as int;
        if occurs_at(t, pat, k) {
            assert(s.subrange(k + 1, k + 1 + pat.len()) =~= t.subrange(k, k + pat.len()));
        }
    } else if s.len() >= pat.len() && s.take(pat.len() as int) == pat {
        assert(s.subrange(0, pat.len() as int) =~= s.take(pat.len() as int));
    }
}

/// The index of the first occurrence of `pat` in `s`, or `s.len()` where there is none.
pub fn find_str(s: &str, pat: &str) -> (r: usize)
    ensures
        r == first_occurrence(s@, pat@),
{
    let a = chars_of(s);
    let p = chars_of(pat);
    let n = a.len();
    let m = p.len();
    let mut i: usize = 0;
    if m > n {
        proof {
            lemma_first_occurrence(s@, pat@, 0);
        }
        return n;
    }
    while i <= n - m
        invariant
            m <= n,
            a@ == s@,
            p@ == pat@,
            n == s@.len(),
            m == pat@.len(),
            i <= n,
            forall|j: int| 0 <= j < i ==> !occurs_at(s@, pat@, j),
        decreases n - i,
    {
        let mut k: usize = 0;
        while k < m && a[i + k] == p[k]
            invariant
                a@ == s@,
                p@ == pat@,
                n == s@.len(),
                m == pat@.len(),
                i + m <= n,
                k <= m,
                forall|q: int| 0 <= q < k ==> s@[i + q] == pat@[q],
            decreases m - k,
        {
            k = k + 1;
        }
        if k == m {
            assert(s@.subrange(i as int, i + m) =~= pat@);
            proof {
                lemma_first_occurrence(s@, pat@, i as int);
            }
            return i;
        }
        assert(s@.subrange(i as int, i + m)[k as int] != pat@[k as int]);
        i = i + 1;
    }
    proof {
        lemma_first_occurrence(s@, pat@, i as int);
    }
    n
}

} // verus!

verus! {

pub proof fn lemma_first_occurrence_bound(s: Seq<char>, pat: Seq<char>)
    ensures
        first_occurrence(s, pat) <= s.len(),
    decreases s.len(),
{
    if s.len() >= pat.len() && s.take(pat.len() as int) != pat && s.len() > 0 {
        lemma_first_occurrence_bound(s.drop_first(), pat);
    }
}

} // verus!

verus! {

/// Each text comes before the next.
pub open spec fn strictly_sorted(q: Seq<Seq<char>>) -> bool {
    forall|i: int, j: int| 0 <= i < j < q.len() ==> lex_compare(#[trigger] q[i], #[trigger] q[j]) < 0
}

/// `q` with `x` put in its place, unless it is there already.
pub proof fn lemma_sorted_insert(q: Seq<Seq<char>>, x: Seq<char>) -> (r: Seq<Seq<char>>)
    requires
        strictly_sorted(q),
    ensures
        strictly_sorted(r),
        forall|v: Seq<char>| r.contains(v) <==> (q.contains(v) || v == x),
    decreases q.len(),
{
    if q.len() == 0 {
        let r = seq![x];
        assert forall|v: Seq<char>| r.contains(v) <==> (q.contains(v) || v == x) by {
            if r.contains(v) {
                let i = choose|i: int| 0 <= i < r.len() && r[i] == v;
            }
            if v == x {
                assert(r[0] == v);
            }
        }
        r
    } else if lex_compare(q.last(), x) < 0 {
        let r = q.push(x);
        assert forall|i: int, j: int| 0 <= i < j < r.len() implies lex_compare(#[trigger] r[i], #[trigger] r[j]) < 0 by {
            if j == q.len() {
                if i < q.len() - 1 {
                    lemma_lex_compare_trans(q[i], q.last(), x);
                }
            } else {
                assert(r[i] == q[i] && r[j] == q[j]);
            }
        }
        assert forall|v: Seq<char>| r.contains(v) <==> (q.contains(v) || v == x) by {
            if r.contains(v) {
                let i = choose|i: int| 0 <= i < r.len() && r[i] == v;
                if i < q.len() {
                    assert(q[i] == v);
                }
            }
            if q.contains(v) {
                let i = choose|i: int| 0 <= i < q.len() && q[i] == v;
                assert(r[i] == v);
            }
            if v == x {
                assert(r[q.len() as int] == v);
            }
        }
        r
    } else if q.last() == x {
        assert forall|v: Seq<char>| q.contains(v) <==> (q.contains(v) || v == x) by {
            if v == x {
                assert(q[q.len() - 1] == v);
            }
        }
        q
    } else {
        lemma_lex_compare_equal(q.last(), x);
        lemma_lex_compare_antisym(q.last(), x);
        let init = q.drop_last();
        assert forall|i: int, j: int| 0 <= i < j < init.len() implies lex_compare(#[trigger] init[i], #[trigger] init[j]) < 0 by {
            assert(init[i] == q[i] && init[j] == q[j]);
        }
        let r0 = lemma_sorted_insert(init, x);
        let r = r0.push(q.last());
        assert forall|v: Seq<char>| r0.contains(v) implies lex_compare(v, q.last()) < 0 by {
            if v == x {
            } else {
                assert(init.contains(v));
                let i = choose|i: int| 0 <= i < init.len() && init[i] == v;
                assert(q[i] == v);
            }
        }
        assert forall|i: int, j: int| 0 <= i < j < r.len() implies lex_compare(#[trigger] r[i], #[trigger] r[j]) < 0 by {
            if j == r0.len() {
                assert(r0.contains(r0[i]));
            } else {
                assert(r[i] == r0[i] && r[j] == r0[j]);
            }
        }
        assert forall|v: Seq<char>| r.contains(v) <==> (q.contains(v) || v == x) by {
            if r.contains(v) {
                let i = choose|i: int| 0 <= i < r.len() && r[i] == v;
                if i < r0.len() {
                    assert(r0[i] == v);
                    assert(r0.contains(v));
                    if v != x {
                        let k = choose|k: int| 0 <= k < init.len() && init[k] == v;
                        assert(q[k] == v);
                    }
                } else {
                    assert(q[q.len() - 1] == v);
                }
            }
            if q.contains(v) {
                let i = choose|i: int| 0 <= i < q.len() && q[i] == v;
                if i < q.len() - 1 {
                    assert(init[i] == v);
                    assert(r0.contains(v));
                    let k = choose|k: int| 0 <= k < r0.len() && r0[k] == v;
                    assert(r[k] == v);
                } else {
                    assert(r[r0.len() as int] == v);
                }
            }
            if v == x {
                assert(r0.contains(v));
                let k = choose|k: int| 0 <= k < r0.len() && r0[k] == v;
                assert(r[k] == v);
            }
        }
        r
    }
}

/// Every finite set of texts has a strictly sorted enumeration.
pub proof fn lemma_sorted_enumeration(s: Set<Seq<char>>) -> (q: Seq<Seq<char>>)
    requires
        s.finite(),
    ensures
        strictly_sorted(q),
        forall|v: Seq<char>| q.contains(v) <==> s.contains(v),
    decreases s.len(),
{
    if s.len() == 0 {
        vstd::set_lib::lemma_set_empty_equivalency_len(s);
        let q = Seq::<Seq<char>>::empty();
        assert forall|v: Seq<char>| q.contains(v) <==> s.contains(v) by {
            assert(!Set::<Seq<char>>::empty().contains(v));
        }
        q
    } else {
        let x = s.choose();
        vstd::set::axiom_set_choose_len(s);
        vstd::set::axiom_set_remove_finite(s, x);
        vstd::set::axiom_set_remove_len(s, x);
        let q0 = lemma_sorted_enumeration(s.remove(x));
        lemma_sorted_insert(q0, x)
    }
}

/// Two strictly sorted sequences with the same elements are equal.
pub proof fn lemma_sorted_unique(a: Seq<Seq<char>>, b: Seq<Seq<char>>)
    requires
        strictly_sorted(a),
        strictly_sorted(b),
        forall|x: Seq<char>| a.contains(x) <==> b.contains(x),
    ensures
        a == b,
    decreases a.len(),
{
    if a.len() == 0 {
        if b.len() > 0 {
            assert(b.contains(b[0]));
        }
        assert(a =~= b);
    } else {
        assert(a.contains(a[0]));
        if b.len() == 0 {
            assert(false);
        }
        assert(b.contains(b[0]));
        let k = choose|k: int| 0 <= k < b.len() && b[k] == a[0];
        let j = choose|j: int| 0 <= j < a.len() && a[j] == b[0];
        if k > 0 {
            assert(lex_compare(b[0], b[k]) < 0);
            if j > 0 {
                assert(lex_compare(a[0], a[j]) < 0);
                lemma_lex_compare_antisym(b[0], a[0]);
            } else {
                lemma_lex_compare_equal(b[0], b[0]);
            }
            assert(false);
        }
        assert(b[0] == a[0]);
        let a1 = a.drop_first();
        let b1 = b.drop_first();
        assert forall|x: Seq<char>| a1.contains(x) <==> b1.contains(x) by {
            if a1.contains(x) {
                let i = choose|i: int| 0 <= i < a1.len() && a1[i] == x;
                assert(a[i + 1] == x);
                assert(lex_compare(a[0], a[i + 1]) < 0);
                lemma_lex_compare_equal(a[0], x);
                assert(b.contains(x));
                let q = choose|q: int| 0 <= q < b.len() && b[q] == x;
                assert(q != 0);
                assert(b1[q - 1] == x);
            }
            if b1.contains(x) {
                let i = choose|i: int| 0 <= i < b1.len() && b1[i] == x;
                assert(b[i + 1] == x);
                assert(lex_compare(b[0], b[i + 1]) < 0);
                lemma_lex_compare_equal(b[0], x);
                assert(a.contains(x));
                let q = choose|q: int| 0 <= q < a.len() && a[q] == x;
                assert(q != 0);
                assert(a1[q - 1] == x);
            }
        }
        assert forall|i: int, j2: int| 0 <= i < j2 < a1.len() implies lex_compare(#[trigger] a1[i], #[trigger] a1[j2]) < 0 by {
            assert(a1[i] == a[i + 1] && a1[j2] == a[j2 + 1]);
        }
        assert forall|i: int, j2: int| 0 <= i < j2 < b1.len() implies lex_compare(#[trigger] b1[i], #[trigger] b1[j2]) < 0 by {
            assert(b1[i] == b[i + 1] && b1[j2] == b[j2 + 1]);
        }
        lemma_sorted_unique(a1, b1);
        assert(a =~= seq![a[0]] + a1);
        assert(b =~= seq![b[0]] + b1);
    }
}

} // verus!

verus! {

/// A value that is a text: its view as characters, and the string holding them.
pub trait Textual {
    spec fn text(&self) -> Seq<char>;

    fn as_text(&self) -> (r: &str)
        ensures
            r@ == self.text();
}

pub open spec fn texts<T: Textual>(v: Seq<&T>) -> Seq<Seq<char>> {
    v.map_values(|r: &T| r.text())
}

/// Inserts `x` into the strictly sorted `ids`, unless it is there already.
pub fn insert_sorted_unique<'a, T: Textual>(ids: &mut Vec<&'a T>, x: &'a T)
    requires
        strictly_sorted(texts(old(ids)@)),
    ensures
        strictly_sorted(texts(final(ids)@)),
        forall|v: Seq<char>| texts(final(ids)@).contains(v) <==> (texts(old(ids)@).contains(v) || v == x.text()),
{
    let ghost old_v = texts(ids@);
    let mut p: usize = 0;
    while p < ids.len() && compare_str(ids[p].as_text(), x.as_text()) < 0
        invariant
            p <= ids@.len(),
            texts(ids@) == old_v,
            forall|q: int| 0 <= q < p ==> lex_compare(#[trigger] old_v[q], x.text()) < 0,
        decreases ids@.len() - p,
    {
        p = p + 1;
    }
    if p < ids.len() && compare_str(ids[p].as_text(), x.as_text()) == 0 {
        proof {
            lemma_lex_compare_equal(old_v[p as int], x.text());
            assert(old_v[p as int] == x.text());
        }
        return;
    }
    proof {
        if p < ids@.len() {
            lemma_lex_compare_antisym(old_v[p as int], x.text());
        }
    }
    ids.insert(p, x);
    proof {
        let nv = texts(ids@);
        assert(nv =~= old_v.insert(p as int, x.text()));
        assert forall|i: int, j: int| 0 <= i < j < nv.len() implies lex_compare(#[trigger] nv[i], #[trigger] nv[j]) < 0 by {
            if j < p {
                assert(nv[i] == old_v[i] && nv[j] == old_v[j]);
            } else if j == p {
                assert(nv[i] == old_v[i]);
            } else if i < p {
                assert(nv[i] == old_v[i] && nv[j] == old_v[j - 1]);
                assert(lex_compare(old_v[i], x.text()) < 0);
                assert(lex_compare(x.text(), old_v[p as int]) < 0);
                if j - 1 > p {
                    lemma_lex_compare_trans(x.text(), old_v[p as int], old_v[j - 1]);
                }
                lemma_lex_compare_trans(old_v[i], x.text(), old_v[j - 1]);
            } else if i == p {
                assert(nv[j] == old_v[j - 1]);
                if j - 1 > p {
                    lemma_lex_compare_trans(x.text(), old_v[p as int], old_v[j - 1]);
                }
            } else {
                assert(nv[i] == old_v[i - 1] && nv[j] == old_v[j - 1]);
            }
        }
        assert forall|v: Seq<char>| nv.contains(v) <==> (old_v.contains(v) || v == x.text()) by {
            if nv.contains(v) {
                let i = choose|i: int| 0 <= i < nv.len() && nv[i] == v;
                if i < p {
                    assert(old_v[i] == v);
                } else if i > p {
                    assert(old_v[i - 1] == v);
                }
            }
            if old_v.contains(v) {
                let i = choose|i: int| 0 <= i < old_v.len() && old_v[i] == v;
                if i < p {
                    assert(nv[i] == v);
                } else {
                    assert(nv[i + 1] == v);
                }
            }
            if v == x.text() {
                assert(nv[p as int] == v);
            }
        }
    }
}

} // verus!
