//! Character-level text handling shared by the parsers of this crate.
//!
//! Strings are modelled by their views, `Seq<char>`. Executable code works on
//! `Vec<char>` and converts at the boundary with [`to_chars`] and [`from_chars`].
use vstd::prelude::*;

verus! {

/// `String::push` appends one character to the end of the string (std documentation:
/// "Appends the given char to the end of this String").
pub assume_specification[ String::push ](s: &mut String, ch: char)
    ensures
        final(s)@ == old(s)@.push(ch),
;

/// The views of a sequence of character vectors.
pub open spec fn views(v: Seq<Vec<char>>) -> Seq<Seq<char>> {
    v.map_values(|x: Vec<char>| x@)
}

/// Unicode `White_Space`, the property behind `char::is_whitespace`.
pub open spec fn is_whitespace(c: char) -> bool {
    let u = c as u32;
    ||| 0x09 <= u <= 0x0d
    ||| u == 0x20
    ||| u == 0x85
    ||| u == 0xa0
    ||| u == 0x1680
    ||| 0x2000 <= u <= 0x200a
    ||| u == 0x2028
    ||| u == 0x2029
    ||| u == 0x202f
    ||| u == 0x205f
    ||| u == 0x3000
}

/// The characters of a string slice, in order.
pub fn to_chars(s: &str) -> (r: Vec<char>)
    ensures
        r@ == s@,
{
    let mut v: Vec<char> = Vec::new();
    for c in it: s.chars()
        invariant
            v@ == it.seq().take(it.index() as int),
    {
        v.push(c);
    }
    v
}

/// A string holding the given characters.
pub fn from_chars(v: &Vec<char>) -> (r: String)
    ensures
        r@ == v@,
{
    let mut s = String::new();
    let mut i: usize = 0;
    while i < v.len()
        invariant
            i <= v.len(),
            s@ == v@.take(i as int),
        decreases v.len() - i,
    {
        s.push(v[i]);
        i = i + 1;
        assert(v@.take(i as int) =~= v@.take(i - 1).push(v@[i - 1]));
    }
    assert(v@.take(v.len() as int) =~= v@);
    s
}

/// Whether `c` has the Unicode `White_Space` property.
pub fn char_is_whitespace(c: char) -> (r: bool)
    ensures
        r == is_whitespace(c),
{
    let u = c as u32;
    (0x09 <= u && u <= 0x0d) || u == 0x20 || u == 0x85 || u == 0xa0 || u == 0x1680 || (0x2000
        <= u && u <= 0x200a) || u == 0x2028 || u == 0x2029 || u == 0x202f || u == 0x205f || u
        == 0x3000
}


/// The pieces of `s` between `'\n'` characters; there is always at least one piece.
pub open spec fn split_newlines(s: Seq<char>) -> Seq<Seq<char>>
    decreases s.len(),
{
    if s.len() == 0 {
        seq![Seq::empty()]
    } else {
        let p = split_newlines(s.drop_last());
        if s.last() == '\n' {
            p.push(Seq::empty())
        } else {
            p.update(p.len() - 1, p.last().push(s.last()))
        }
    }
}

/// A line without the carriage return that ended it, if any.
pub open spec fn strip_cr(l: Seq<char>) -> Seq<char> {
    if l.len() > 0 && l.last() == '\r' {
        l.drop_last()
    } else {
        l
    }
}

/// The lines of `s`, as `str::lines` gives them: split at `'\n'` or `"\r\n"`, with the
/// final line ending optional (an empty final piece is not a line). A carriage return is
/// only dropped where a `'\n'` follows it.
pub open spec fn lines(s: Seq<char>) -> Seq<Seq<char>> {
    let p = split_newlines(s);
    let done = p.drop_last().map_values(|l: Seq<char>| strip_cr(l));
    if p.last().len() == 0 {
        done
    } else {
        done.push(p.last())
    }
}

/// `parts` joined with `sep` between neighbours, as `join` on a slice of strings.
pub open spec fn join(parts: Seq<Seq<char>>, sep: Seq<char>) -> Seq<char>
    decreases parts.len(),
{
    if parts.len() == 0 {
        Seq::empty()
    } else if parts.len() == 1 {
        parts[0]
    } else {
        join(parts.drop_last(), sep) + sep + parts.last()
    }
}

/// `s` without its leading whitespace.
pub open spec fn trim_start(s: Seq<char>) -> Seq<char>
    decreases s.len(),
{
    if s.len() > 0 && is_whitespace(s[0]) {
        trim_start(s.drop_first())
    } else {
        s
    }
}

/// `s` without its trailing whitespace.
pub open spec fn trim_end(s: Seq<char>) -> Seq<char>
    decreases s.len(),
{
    if s.len() > 0 && is_whitespace(s.last()) {
        trim_end(s.drop_last())
    } else {
        s
    }
}

/// `s` without leading and trailing whitespace, as `str::trim`.
pub open spec fn trim(s: Seq<char>) -> Seq<char> {
    trim_end(trim_start(s))
}

/// Whether `s` begins with `p`.
pub open spec fn starts_with(s: Seq<char>, p: Seq<char>) -> bool {
    p.len() <= s.len() && s.take(p.len() as int) == p
}

/// Whether `s` ends with `p`.
pub open spec fn ends_with(s: Seq<char>, p: Seq<char>) -> bool {
    p.len() <= s.len() && s.skip(s.len() - p.len()) == p
}

pub proof fn lemma_split_newlines_nonempty(s: Seq<char>)
    ensures
        split_newlines(s).len() >= 1,
    decreases s.len(),
{
    if s.len() > 0 {
        lemma_split_newlines_nonempty(s.drop_last());
    }
}

/// The characters `v[a..b]`.
pub fn slice_chars(v: &Vec<char>, a: usize, b: usize) -> (r: Vec<char>)
    requires
        a <= b <= v.len(),
    ensures
        r@ == v@.subrange(a as int, b as int),
{
    let mut r: Vec<char> = Vec::new();
    let mut i = a;
    while i < b
        invariant
            a <= i <= b <= v.len(),
            r@ == v@.subrange(a as int, i as int),
        decreases b - i,
    {
        r.push(v[i]);
        i = i + 1;
        assert(r@ =~= v@.subrange(a as int, i as int));
    }
    r
}

/// `v` followed by `w`.
pub fn append_chars(v: &mut Vec<char>, w: &Vec<char>)
    ensures
        final(v)@ == old(v)@ + w@,
{
    let mut i: usize = 0;
    while i < w.len()
        invariant
            i <= w.len(),
            v@ == old(v)@ + w@.take(i as int),
        decreases w.len() - i,
    {
        v.push(w[i]);
        i = i + 1;
        assert(v@ =~= old(v)@ + w@.take(i as int));
    }
    assert(w@.take(w.len() as int) =~= w@);
}

/// The lines of `s`, as `str::lines` splits them.
pub fn lines_of(s: &Vec<char>) -> (r: Vec<Vec<char>>)
    ensures
        views(r@) == lines(s@),
{
    let mut done: Vec<Vec<char>> = Vec::new();
    let mut cur: Vec<char> = Vec::new();
    let mut i: usize = 0;
    proof {
        assert(s@.take(0) =~= Seq::<char>::empty());
    }
    while i < s.len()
        invariant
            i <= s.len(),
            split_newlines(s@.take(i as int)).len() >= 1,
            views(done@) == split_newlines(s@.take(i as int)).drop_last().map_values(
                |l: Seq<char>| strip_cr(l),
            ),
            cur@ == split_newlines(s@.take(i as int)).last(),
        decreases s.len() - i,
    {
        let c = s[i];
        let ghost before = s@.take(i as int);
        proof {
            assert(s@.take(i + 1).drop_last() =~= before);
            lemma_split_newlines_nonempty(before);
        }
        if c == '\n' {
            let line = if cur.len() > 0 && cur[cur.len() - 1] == '\r' {
                slice_chars(&cur, 0, cur.len() - 1)
            } else {
                slice_chars(&cur, 0, cur.len())
            };
            assert(line@ =~= strip_cr(cur@));
            let ghost done_before = done@;
            done.push(line);
            assert(views(done@) =~= views(done_before).push(strip_cr(cur@)));
            cur = Vec::new();
            proof {
                let p = split_newlines(before);
                let q = split_newlines(s@.take(i + 1));
                assert(q == p.push(Seq::<char>::empty()));
                assert(q.drop_last() =~= p);
                assert(p =~= p.drop_last().push(p.last()));
                assert(views(done@) =~= q.drop_last().map_values(|l: Seq<char>| strip_cr(l)));
            }
        } else {
            cur.push(c);
            proof {
                let p = split_newlines(before);
                let q = split_newlines(s@.take(i + 1));
                assert(q == p.update(p.len() - 1, p.last().push(c)));
                assert(q.drop_last() =~= p.drop_last());
            }
        }
        i = i + 1;
    }
    proof {
        assert(s@.take(s.len() as int) =~= s@);
    }
    if cur.len() > 0 {
        done.push(cur);
        proof {
            let p = split_newlines(s@);
            assert(views(done@) =~= lines(s@));
        }
    }
    done
}


/// `parts` joined with `sep` between neighbours.
pub fn join_chars(parts: &Vec<Vec<char>>, sep: &Vec<char>) -> (r: Vec<char>)
    ensures
        r@ == join(views(parts@), sep@),
{
    let mut r: Vec<char> = Vec::new();
    let mut i: usize = 0;
    while i < parts.len()
        invariant
            i <= parts.len(),
            r@ == join(views(parts@).take(i as int), sep@),
        decreases parts.len() - i,
    {
        let ghost vs = views(parts@);
        assert(vs.take(i + 1).drop_last() =~= vs.take(i as int));
        if i > 0 {
            append_chars(&mut r, sep);
        }
        append_chars(&mut r, &parts[i]);
        i = i + 1;
        proof {
            if i == 1 {
                assert(vs.take(0) =~= Seq::<Seq<char>>::empty());
            }
        }
    }
    assert(views(parts@).take(parts.len() as int) =~= views(parts@));
    r
}

/// `s` without leading and trailing whitespace.
pub fn trim_chars(s: &Vec<char>) -> (r: Vec<char>)
    ensures
        r@ == trim(s@),
{
    let mut a: usize = 0;
    assert(s@.skip(0) =~= s@);
    while a < s.len() && char_is_whitespace(s[a])
        invariant
            a <= s.len(),
            trim_start(s@) == trim_start(s@.skip(a as int)),
        decreases s.len() - a,
    {
        assert(s@.skip(a as int).drop_first() =~= s@.skip(a + 1));
        a = a + 1;
    }
    let ghost t = s@.skip(a as int);
    assert(trim_start(s@) == t) by {
        if a == s.len() {
            assert(t =~= Seq::<char>::empty());
        }
    }
    let mut b: usize = s.len();
    assert(t.take(t.len() as int) =~= t);
    while b > a && char_is_whitespace(s[b - 1])
        invariant
            a <= b <= s.len(),
            t == s@.skip(a as int),
            trim_end(t) == trim_end(t.take(b - a)),
        decreases b,
    {
        assert(t.take(b - a).drop_last() =~= t.take(b - 1 - a));
        b = b - 1;
    }
    proof {
        if b == a {
            assert(t.take(0) =~= Seq::<char>::empty());
        }
        assert(t.take(b - a) =~= s@.subrange(a as int, b as int));
    }
    slice_chars(s, a, b)
}

/// Whether `s` begins with `p`.
pub fn starts_with_chars(s: &Vec<char>, p: &Vec<char>) -> (r: bool)
    ensures
        r == starts_with(s@, p@),
{
    if p.len() > s.len() {
        return false;
    }
    let mut i: usize = 0;
    while i < p.len()
        invariant
            i <= p.len() <= s.len(),
            forall|j: int| 0 <= j < i ==> s@[j] == p@[j],
        decreases p.len() - i,
    {
        if s[i] != p[i] {
            assert(s@.take(p.len() as int)[i as int] != p@[i as int]);
            return false;
        }
        i = i + 1;
    }
    assert(s@.take(p.len() as int) =~= p@);
    true
}

/// Whether `s` ends with `p`.
pub fn ends_with_chars(s: &Vec<char>, p: &Vec<char>) -> (r: bool)
    ensures
        r == ends_with(s@, p@),
{
    if p.len() > s.len() {
        return false;
    }
    let off = s.len() - p.len();
    let mut i: usize = 0;
    while i < p.len()
        invariant
            i <= p.len() <= s.len(),
            off == s.len() - p.len(),
            forall|j: int| 0 <= j < i ==> s@[off + j] == p@[j],
        decreases p.len() - i,
    {
        if s[off + i] != p[i] {
            assert(s@.skip(off as int)[i as int] != p@[i as int]);
            return false;
        }
        i = i + 1;
    }
    assert(s@.skip(off as int) =~= p@);
    true
}

/// Whether two character sequences are equal.
pub fn chars_eq(a: &Vec<char>, b: &Vec<char>) -> (r: bool)
    ensures
        r == (a@ == b@),
{
    if a.len() != b.len() {
        return false;
    }
    let mut i: usize = 0;
    while i < a.len()
        invariant
            i <= a.len() == b.len(),
            forall|j: int| 0 <= j < i ==> a@[j] == b@[j],
        decreases a.len() - i,
    {
        if a[i] != b[i] {
            return false;
        }
        i = i + 1;
    }
    assert(a@ =~= b@);
    true
}


/// `i` is the position of the last `c` in `s`.
pub open spec fn is_last_index(s: Seq<char>, c: char, i: int) -> bool {
    &&& 0 <= i < s.len()
    &&& s[i] == c
    &&& forall|j: int| i < j < s.len() ==> s[j] != c
}

/// The extension of a file name, as `Path::extension` gives it: the text after the last
/// `.`, unless there is no `.` or the only one starts the name.
pub open spec fn extension(name: Seq<char>) -> Option<Seq<char>> {
    if exists|i: int| is_last_index(name, '.', i) && i > 0 {
        let i = choose|i: int| is_last_index(name, '.', i) && i > 0;
        Some(name.skip(i + 1))
    } else {
        None
    }
}

pub proof fn lemma_last_index_unique(s: Seq<char>, c: char, i: int, k: int)
    requires
        is_last_index(s, c, i),
        is_last_index(s, c, k),
    ensures
        i == k,
{
    if i < k {
        assert(s[k] != c);
    } else if k < i {
        assert(s[i] != c);
    }
}

/// The extension of a file name.
pub fn extension_chars(name: &Vec<char>) -> (r: Option<Vec<char>>)
    ensures
        match r {
            Some(e) => extension(name@) == Some(e@),
            None => extension(name@) is None,
        },
{
    let mut i: usize = name.len();
    while i > 0
        invariant
            i <= name.len(),
            forall|j: int| i <= j < name.len() ==> name@[j] != '.',
        decreases i,
    {
        if name[i - 1] == '.' {
            let k = i - 1;
            assert(is_last_index(name@, '.', k as int));
            if k == 0 {
                proof {
                    assert forall|m: int| !(is_last_index(name@, '.', m) && m > 0) by {
                        if is_last_index(name@, '.', m) {
                            lemma_last_index_unique(name@, '.', k as int, m);
                        }
                    }
                }
                return None;
            }
            proof {
                let m = choose|m: int| is_last_index(name@, '.', m) && m > 0;
                lemma_last_index_unique(name@, '.', k as int, m);
            }
            let e = slice_chars(name, k + 1, name.len());
            assert(e@ =~= name@.skip(k + 1));
            return Some(e);
        }
        i = i - 1;
    }
    None
}

/// Whether the extension of `name` is exactly `ext`.
pub fn has_extension(name: &Vec<char>, ext: &Vec<char>) -> (r: bool)
    ensures
        r == (extension(name@) == Some(ext@)),
{
    match extension_chars(name) {
        Some(e) => chars_eq(&e, ext),
        None => false,
    }
}


/// `pat` occurs in `s` at position `i`.
pub open spec fn occurs_at(s: Seq<char>, pat: Seq<char>, i: int) -> bool {
    0 <= i && i + pat.len() <= s.len() && s.subrange(i, i + pat.len()) == pat
}

/// `i` is the position of the first occurrence of `pat` in `s`.
pub open spec fn is_first_occurrence(s: Seq<char>, pat: Seq<char>, i: int) -> bool {
    occurs_at(s, pat, i) && forall|j: int| 0 <= j < i ==> !occurs_at(s, pat, j)
}

/// The position of the first occurrence of `pat` in `s`, as `str::find` (counted in
/// characters rather than bytes).
pub open spec fn find(s: Seq<char>, pat: Seq<char>) -> Option<int> {
    if exists|i: int| is_first_occurrence(s, pat, i) {
        Some(choose|i: int| is_first_occurrence(s, pat, i))
    } else {
        None
    }
}

pub proof fn lemma_first_occurrence_unique(s: Seq<char>, pat: Seq<char>, i: int, k: int)
    requires
        is_first_occurrence(s, pat, i),
        is_first_occurrence(s, pat, k),
    ensures
        i == k,
{
}

/// Whether `pat` occurs in `s` at position `i`.
pub fn occurs_at_chars(s: &Vec<char>, pat: &Vec<char>, i: usize) -> (r: bool)
    ensures
        r == occurs_at(s@, pat@, i as int),
{
    if i > s.len() || pat.len() > s.len() - i {
        return false;
    }
    let mut k: usize = 0;
    while k < pat.len()
        invariant
            k <= pat.len(),
            i + pat.len() <= s.len(),
            forall|j: int| 0 <= j < k ==> s@[i + j] == pat@[j],
        decreases pat.len() - k,
    {
        if s[i + k] != pat[k] {
            assert(s@.subrange(i as int, i + pat.len())[k as int] != pat@[k as int]);
            return false;
        }
        k = k + 1;
    }
    assert(s@.subrange(i as int, i + pat.len()) =~= pat@);
    true
}

/// The position of the first occurrence of `pat` in `s`.
pub fn find_chars(s: &Vec<char>, pat: &Vec<char>) -> (r: Option<usize>)
    ensures
        match r {
            Some(i) => find(s@, pat@) == Some(i as int),
            None => find(s@, pat@) is None,
        },
{
    if pat.len() > s.len() {
        proof {
            assert forall|k: int| !is_first_occurrence(s@, pat@, k) by {}
        }
        return None;
    }
    let last = s.len() - pat.len();
    let mut i: usize = 0;
    while i <= last
        invariant
            last == s.len() - pat.len(),
            i <= last + 1,
            forall|j: int| 0 <= j < i ==> !occurs_at(s@, pat@, j),
        decreases last + 1 - i,
    {
        if occurs_at_chars(s, pat, i) {
            proof {
                assert(is_first_occurrence(s@, pat@, i as int));
                let k = choose|k: int| is_first_occurrence(s@, pat@, k);
                lemma_first_occurrence_unique(s@, pat@, i as int, k);
            }
            return Some(i);
        }
        if i == last {
            proof {
                assert forall|k: int| !is_first_occurrence(s@, pat@, k) by {
                    if is_first_occurrence(s@, pat@, k) {
                        assert(k <= last);
                    }
                }
            }
            return None;
        }
        i = i + 1;
    }
    None
}

/// `k` ends the first word of `t`, a text without leading whitespace.
pub open spec fn is_word_end(t: Seq<char>, k: int) -> bool {
    &&& 0 <= k <= t.len()
    &&& (k == t.len() || is_whitespace(t[k]))
    &&& forall|j: int| 0 <= j < k ==> !is_whitespace(t[j])
}

/// The first whitespace-separated word of `s`, as `split_whitespace().next()`.
pub open spec fn first_word(s: Seq<char>) -> Option<Seq<char>> {
    let t = trim_start(s);
    if t.len() == 0 {
        None
    } else {
        Some(t.take(choose|k: int| is_word_end(t, k)))
    }
}

/// The leading whitespace of `s` has length `a`.
pub proof fn lemma_trim_start_skip(s: Seq<char>, a: int)
    requires
        0 <= a <= s.len(),
        forall|j: int| 0 <= j < a ==> is_whitespace(s[j]),
        a == s.len() || !is_whitespace(s[a]),
    ensures
        trim_start(s) == s.skip(a),
    decreases a,
{
    if a == 0 {
        assert(s.skip(0) =~= s);
    } else {
        assert(is_whitespace(s[0]));
        lemma_trim_start_skip(s.drop_first(), a - 1);
        assert(s.drop_first().skip(a - 1) =~= s.skip(a));
    }
}

/// The first whitespace-separated word of `s`.
pub fn first_word_chars(s: &Vec<char>) -> (r: Option<Vec<char>>)
    ensures
        match r {
            Some(w) => first_word(s@) == Some(w@),
            None => first_word(s@) is None,
        },
{
    let mut a: usize = 0;
    while a < s.len() && char_is_whitespace(s[a])
        invariant
            a <= s.len(),
            forall|j: int| 0 <= j < a ==> is_whitespace(s@[j]),
        decreases s.len() - a,
    {
        a = a + 1;
    }
    proof {
        lemma_trim_start_skip(s@, a as int);
    }
    if a == s.len() {
        return None;
    }
    let ghost t = s@.skip(a as int);
    let mut b: usize = a;
    while b < s.len() && !char_is_whitespace(s[b])
        invariant
            a <= b <= s.len(),
            t == s@.skip(a as int),
            forall|j: int| 0 <= j < b - a ==> !is_whitespace(t[j]),
        decreases s.len() - b,
    {
        b = b + 1;
    }
    proof {
        assert(is_word_end(t, b - a));
        let k = choose|k: int| is_word_end(t, k);
        if k < b - a {
            assert(is_whitespace(t[k]));
        } else if b - a < k {
            assert(!is_whitespace(t[b - a]));
        }
        assert(t.take(b - a) =~= s@.subrange(a as int, b as int));
    }
    Some(slice_chars(s, a, b))
}

/// `s` without trailing copies of `c`, as `str::trim_end_matches` with one character.
pub open spec fn trim_end_char(s: Seq<char>, c: char) -> Seq<char>
    decreases s.len(),
{
    if s.len() > 0 && s.last() == c {
        trim_end_char(s.drop_last(), c)
    } else {
        s
    }
}

/// `s` without trailing copies of `c`.
pub fn trim_end_char_chars(s: &Vec<char>, c: char) -> (r: Vec<char>)
    ensures
        r@ == trim_end_char(s@, c),
{
    let mut b: usize = s.len();
    assert(s@.take(s.len() as int) =~= s@);
    while b > 0 && s[b - 1] == c
        invariant
            b <= s.len(),
            trim_end_char(s@, c) == trim_end_char(s@.take(b as int), c),
        decreases b,
    {
        assert(s@.take(b as int).drop_last() =~= s@.take(b - 1));
        b = b - 1;
    }
    assert(s@.take(b as int) =~= s@.subrange(0, b as int));
    slice_chars(s, 0, b)
}


/// `s` holds no `"\r\n"` line ending.
pub open spec fn no_crlf(s: Seq<char>) -> bool {
    forall|i: int| 0 <= i < s.len() - 1 ==> !(#[trigger] s[i] == '\r' && s[i + 1] == '\n')
}

proof fn lemma_join_push_last(q: Seq<Seq<char>>, sep: Seq<char>, c: char)
    requires
        q.len() >= 1,
    ensures
        join(q.update(q.len() - 1, q.last().push(c)), sep) == join(q, sep).push(c),
{
    let p = q.update(q.len() - 1, q.last().push(c));
    if q.len() == 1 {
        assert(p[0] == q[0].push(c));
    } else {
        assert(p.drop_last() =~= q.drop_last());
        assert(join(p, sep) =~= join(q, sep).push(c));
    }
}

proof fn lemma_join_split_newlines(s: Seq<char>)
    ensures
        join(split_newlines(s), seq!['\n']) == s,
        split_newlines(s).len() >= 1,
        split_newlines(s).last().len() > 0 ==> s.len() > 0 && s.last() != '\n'
            && split_newlines(s).last().last() == s.last(),
    decreases s.len(),
{
    if s.len() == 0 {
        assert(join(split_newlines(s), seq!['\n']) =~= s);
    } else {
        let q = split_newlines(s.drop_last());
        lemma_join_split_newlines(s.drop_last());
        if s.last() == '\n' {
            let p = q.push(Seq::<char>::empty());
            assert(p.drop_last() =~= q);
            assert(join(p, seq!['\n']) =~= s.drop_last() + seq!['\n']);
            assert(s.drop_last() + seq!['\n'] =~= s);
        } else {
            lemma_join_push_last(q, seq!['\n'], s.last());
            assert(s.drop_last().push(s.last()) =~= s);
        }
    }
}

proof fn lemma_split_pieces_no_cr(s: Seq<char>)
    requires
        no_crlf(s),
    ensures
        forall|i: int|
            0 <= i < split_newlines(s).len() - 1 ==> strip_cr(#[trigger] split_newlines(s)[i])
                == split_newlines(s)[i],
    decreases s.len(),
{
    if s.len() > 0 {
        let t = s.drop_last();
        assert(no_crlf(t)) by {
            assert forall|i: int| 0 <= i < t.len() - 1 implies !(#[trigger] t[i] == '\r' && t[i
                + 1] == '\n') by {
                assert(t[i] == s[i] && t[i + 1] == s[i + 1]);
            }
        }
        lemma_split_pieces_no_cr(t);
        lemma_join_split_newlines(t);
        let q = split_newlines(t);
        let p = split_newlines(s);
        if s.last() == '\n' {
            assert forall|i: int| 0 <= i < p.len() - 1 implies strip_cr(#[trigger] p[i])
                == p[i] by {
                if i < q.len() - 1 {
                    assert(p[i] == q[i]);
                } else {
                    assert(p[i] == q.last());
                    if q.last().len() > 0 && q.last().last() == '\r' {
                        assert(t.last() == '\r');
                        assert(s[s.len() - 2] == '\r' && s[s.len() - 1] == '\n');
                    }
                }
            }
        } else {
            assert forall|i: int| 0 <= i < p.len() - 1 implies strip_cr(#[trigger] p[i])
                == p[i] by {
                assert(p[i] == q[i]);
            }
        }
    }
}

/// Joining the lines of a text without `"\r\n"` by `'\n'`, and ending with `'\n'` where the
/// text did, gives the text back.
pub proof fn lemma_lines_join_roundtrip(s: Seq<char>)
    requires
        no_crlf(s),
    ensures
        join(lines(s), seq!['\n']) + (if ends_with(s, seq!['\n']) {
            seq!['\n']
        } else {
            Seq::empty()
        }) == s,
{
    lemma_join_split_newlines(s);
    lemma_split_pieces_no_cr(s);
    let p = split_newlines(s);
    let done = p.drop_last().map_values(|l: Seq<char>| strip_cr(l));
    assert(done =~= p.drop_last());
    if p.last().len() == 0 {
        if s.len() == 0 {
            assert(lines(s) =~= Seq::<Seq<char>>::empty());
            assert(join(lines(s), seq!['\n']) + Seq::<char>::empty() =~= s);
        } else {
            // a text whose last piece is empty ends with a newline
            assert(s.last() == '\n') by {
                if s.last() != '\n' {
                    let q = split_newlines(s.drop_last());
                    lemma_split_newlines_nonempty(s.drop_last());
                    assert(p.last() == q.last().push(s.last()));
                }
            }
            assert(s.skip(s.len() - 1) =~= seq!['\n']);
            assert(p.len() >= 2) by {
                lemma_split_newlines_nonempty(s.drop_last());
            }
            assert(p =~= p.drop_last().push(p.last()));
            assert(join(p, seq!['\n']) == join(p.drop_last(), seq!['\n']) + seq!['\n'] + p.last());
            assert(join(lines(s), seq!['\n']) + seq!['\n'] =~= s);
        }
    } else {
        assert(lines(s) =~= p);
        assert(!ends_with(s, seq!['\n'])) by {
            if ends_with(s, seq!['\n']) {
                assert(s.skip(s.len() - 1)[0] == s.last());
            }
        }
        assert(join(lines(s), seq!['\n']) + Seq::<char>::empty() =~= s);
    }
}


/// `s` holds neither `'\n'` nor `'\r'`.
pub open spec fn no_line_break(s: Seq<char>) -> bool {
    forall|i: int| 0 <= i < s.len() ==> #[trigger] s[i] != '\n' && s[i] != '\r'
}

/// `s` holds no `'\n'`.
pub open spec fn no_newline(s: Seq<char>) -> bool {
    forall|i: int| 0 <= i < s.len() ==> #[trigger] s[i] != '\n'
}

/// `s` can stand as one line of a text: it holds no `'\n'` and does not end with `'\r'`.
pub open spec fn is_bare_line(s: Seq<char>) -> bool {
    no_newline(s) && !(s.len() > 0 && s.last() == '\r')
}

proof fn lemma_split_newlines_append(s: Seq<char>, w: Seq<char>)
    requires
        forall|i: int| 0 <= i < w.len() ==> #[trigger] w[i] != '\n',
    ensures
        split_newlines(s + w) == split_newlines(s).update(
            split_newlines(s).len() - 1,
            split_newlines(s).last() + w,
        ),
    decreases w.len(),
{
    lemma_split_newlines_nonempty(s);
    let p = split_newlines(s);
    if w.len() == 0 {
        assert(s + w =~= s);
        assert(p.update(p.len() - 1, p.last() + w) =~= p);
    } else {
        let w0 = w.drop_last();
        lemma_split_newlines_append(s, w0);
        assert((s + w).drop_last() =~= s + w0);
        assert((s + w).last() == w.last());
        let q = split_newlines(s + w0);
        assert((p.last() + w0).push(w.last()) =~= p.last() + w);
        assert(q.update(q.len() - 1, q.last().push(w.last())) =~= p.update(
            p.len() - 1,
            p.last() + w,
        ));
    }
}

proof fn lemma_split_newlines_join(parts: Seq<Seq<char>>)
    requires
        parts.len() >= 1,
        forall|i: int| 0 <= i < parts.len() ==> no_newline(#[trigger] parts[i]),
    ensures
        split_newlines(join(parts, seq!['\n'])) == parts,
    decreases parts.len(),
{
    let last = parts.last();
    assert(no_newline(parts[parts.len() - 1]));
    assert forall|i: int| 0 <= i < last.len() implies #[trigger] last[i] != '\n' by {
        assert(parts[parts.len() - 1][i] != '\n');
    }
    if parts.len() == 1 {
        let e = Seq::<char>::empty();
        lemma_split_newlines_append(e, last);
        assert(e + last =~= last);
        assert(split_newlines(e) == seq![e]);
        assert(seq![e].update(0, e + last) =~= parts);
    } else {
        let init = parts.drop_last();
        assert forall|i: int| 0 <= i < init.len() implies no_newline(#[trigger] init[i]) by {
            assert(init[i] == parts[i]);
        }
        lemma_split_newlines_join(init);
        let a = join(init, seq!['\n']);
        let b = a + seq!['\n'];
        assert(b.drop_last() =~= a);
        assert(split_newlines(b) == init.push(Seq::<char>::empty()));
        lemma_split_newlines_append(b, last);
        assert(join(parts, seq!['\n']) == b + last);
        assert(init.push(Seq::<char>::empty()).update(init.len() as int, Seq::<char>::empty() + last)
            =~= parts);
    }
}

/// The lines of `'\n'`-joined bare lines, followed by a final `'\n'` when
/// `ended`, are those parts again, and the text ends with `'\n'` exactly when `ended`. The
/// parts must have a shape `lines` gives: none when the text is empty, and a non-empty last
/// part when no `'\n'` ends the text.
pub proof fn lemma_lines_of_join(parts: Seq<Seq<char>>, ended: bool)
    requires
        forall|i: int| 0 <= i < parts.len() ==> is_bare_line(#[trigger] parts[i]),
        parts.len() == 0 ==> !ended,
        !ended && parts.len() > 0 ==> parts.last().len() > 0,
    ensures
        lines(join(parts, seq!['\n']) + (if ended { seq!['\n'] } else { Seq::empty() }))
            == parts,
        ends_with(
            join(parts, seq!['\n']) + (if ended { seq!['\n'] } else { Seq::empty() }),
            seq!['\n'],
        ) == ended,
{
    let j = join(parts, seq!['\n']);
    let t = j + (if ended { seq!['\n'] } else { Seq::<char>::empty() });
    if parts.len() == 0 {
        assert(t =~= Seq::<char>::empty());
        assert(lines(t) =~= parts);
    } else {
        assert forall|i: int| 0 <= i < parts.len() implies no_newline(#[trigger] parts[i]) by {
            assert(is_bare_line(parts[i]));
        }
        lemma_split_newlines_join(parts);
        assert forall|i: int| 0 <= i < parts.len() implies strip_cr(#[trigger] parts[i])
            == parts[i] by {
            assert(is_bare_line(parts[i]));
        }
        if ended {
            assert(t.drop_last() =~= j);
            let p = split_newlines(t);
            assert(p == parts.push(Seq::<char>::empty()));
            assert(p.drop_last() =~= parts);
            assert(p.drop_last().map_values(|l: Seq<char>| strip_cr(l)) =~= parts);
            assert(t.skip(t.len() - 1) =~= seq!['\n']);
        } else {
            assert(t =~= j);
            assert(parts.drop_last().map_values(|l: Seq<char>| strip_cr(l)).push(parts.last())
                =~= parts);
            let last = parts.last();
            assert(is_bare_line(parts[parts.len() - 1]));
            assert(j.last() == last.last()) by {
                if parts.len() > 1 {
                    assert(j == join(parts.drop_last(), seq!['\n']) + seq!['\n'] + last);
                }
            }
            assert(last[last.len() - 1] != '\n');
            if ends_with(t, seq!['\n']) {
                assert(t.skip(t.len() - 1)[0] == t.last());
            }
        }
    }
}

proof fn lemma_split_pieces_no_break(s: Seq<char>)
    requires
        !s.contains('\r'),
    ensures
        forall|i: int|
            0 <= i < split_newlines(s).len() ==> no_line_break(#[trigger] split_newlines(s)[i]),
    decreases s.len(),
{
    if s.len() > 0 {
        let t = s.drop_last();
        assert(!t.contains('\r')) by {
            if t.contains('\r') {
                let k = choose|k: int| 0 <= k < t.len() && t[k] == '\r';
                assert(s[k] == '\r');
            }
        }
        lemma_split_pieces_no_break(t);
        lemma_split_newlines_nonempty(t);
        let q = split_newlines(t);
        let p = split_newlines(s);
        assert(s[s.len() - 1] != '\r');
        assert forall|i: int| 0 <= i < p.len() implies no_line_break(#[trigger] p[i]) by {
            if s.last() == '\n' {
                if i < q.len() {
                    assert(p[i] == q[i]);
                } else {
                    assert(p[i] =~= Seq::<char>::empty());
                }
            } else {
                if i < q.len() - 1 {
                    assert(p[i] == q[i]);
                } else {
                    assert(p[i] == q[i].push(s.last()));
                    assert(no_line_break(q[i]));
                    assert forall|k: int| 0 <= k < p[i].len() implies #[trigger] p[i][k] != '\n'
                        && p[i][k] != '\r' by {
                        if k < q[i].len() {
                            assert(p[i][k] == q[i][k]);
                        }
                    }
                }
            }
        }
    }
}

/// The lines of a text without `'\r'` hold no line break, and have the shape
/// [`lemma_lines_of_join`] asks for.
pub proof fn lemma_lines_shape(s: Seq<char>)
    requires
        !s.contains('\r'),
    ensures
        forall|i: int| 0 <= i < lines(s).len() ==> no_line_break(#[trigger] lines(s)[i]),
        lines(s).len() == 0 ==> !ends_with(s, seq!['\n']),
        !ends_with(s, seq!['\n']) && lines(s).len() > 0 ==> lines(s).last().len() > 0,
{
    lemma_split_pieces_no_break(s);
    lemma_join_split_newlines(s);
    let p = split_newlines(s);
    let done = p.drop_last().map_values(|l: Seq<char>| strip_cr(l));
    assert forall|i: int| 0 <= i < p.len() - 1 implies strip_cr(#[trigger] p[i]) == p[i] by {
        assert(no_line_break(p[i]));
        if p[i].len() > 0 {
            assert(p[i][p[i].len() - 1] != '\r');
        }
    }
    assert(done =~= p.drop_last());
    assert forall|i: int| 0 <= i < lines(s).len() implies no_line_break(#[trigger] lines(s)[i]) by {
        assert(lines(s)[i] == p[i]);
    }
    if s.len() == 0 {
        assert(!ends_with(s, seq!['\n']));
    } else if p.last().len() == 0 {
        assert(s.last() == '\n') by {
            if s.last() != '\n' {
                lemma_split_newlines_nonempty(s.drop_last());
            }
        }
        assert(s.skip(s.len() - 1) =~= seq!['\n']);
        assert(p.len() >= 2) by {
            if p.len() == 1 {
                assert(join(p, seq!['\n']) == p[0]);
            }
        }
    }
}

/// `v` followed by the characters of `s`.
pub fn push_str(v: &mut Vec<char>, s: &str)
    ensures
        final(v)@ == old(v)@ + s@,
{
    let w = to_chars(s);
    append_chars(v, &w);
}

/// The decimal digit `d`.
pub open spec fn digit(d: int) -> char {
    seq!['0', '1', '2', '3', '4', '5', '6', '7', '8', '9'][d]
}

/// The decimal representation of `n`, without leading zeros.
pub open spec fn decimal(n: nat) -> Seq<char>
    decreases n,
{
    if n < 10 {
        seq![digit(n as int)]
    } else {
        decimal(n / 10).push(digit((n % 10) as int))
    }
}

fn digit_char(d: u128) -> (r: char)
    requires
        d < 10,
    ensures
        r == digit(d as int),
{
    let digits = ['0', '1', '2', '3', '4', '5', '6', '7', '8', '9'];
    assert(digits@ =~= seq!['0', '1', '2', '3', '4', '5', '6', '7', '8', '9']);
    digits[d as usize]
}

/// The decimal representation of `n`.
pub fn decimal_chars(n: u128) -> (r: Vec<char>)
    ensures
        r@ == decimal(n as nat),
{
    let mut cur = n;
    let mut acc: Vec<char> = Vec::new();
    assert(decimal(n as nat) =~= decimal(cur as nat) + acc@.reverse());
    while cur >= 10
        invariant
            decimal(n as nat) == decimal(cur as nat) + acc@.reverse(),
        decreases cur,
    {
        let d = digit_char(cur % 10);
        let ghost before = acc@;
        acc.push(d);
        assert(acc@.reverse() =~= seq![d] + before.reverse());
        assert(decimal(cur as nat) == decimal((cur / 10) as nat).push(d));
        cur = cur / 10;
    }
    let mut r: Vec<char> = Vec::new();
    r.push(digit_char(cur));
    let mut i = acc.len();
    while i > 0
        invariant
            i <= acc.len(),
            r@ == seq![digit(cur as int)] + acc@.reverse().take(acc.len() - i),
        decreases i,
    {
        let ghost before = r@;
        r.push(acc[i - 1]);
        assert(acc@.reverse().take(acc.len() - (i - 1)) =~= acc@.reverse().take(acc.len() - i).push(
            acc@[i - 1],
        ));
        i = i - 1;
    }
    assert(acc@.reverse().take(acc.len() as int) =~= acc@.reverse());
    r
}

} // verus!
