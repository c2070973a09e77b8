//! Character-level text operations on the views of `str` and `String`.
//!
//! Every operation here works on sequences of `char`s, the view that Verus
//! gives to `str` and `String`. The specifications follow std's documented
//! behaviour of the corresponding `str` methods (`trim`, `lines`,
//! `split_whitespace`, `find`, ...).
use vstd::prelude::*;

verus! {

/// Appends one character to a `String` (std's `String::push`).
#[verifier::external_body]
pub(crate) fn push_char(s: &mut String, c: char)
    ensures
        final(s)@ == old(s)@.push(c),
{
    s.push(c);
}

/// The characters of `s`, in order.
pub fn chars_of(s: &str) -> (v: Vec<char>)
    ensures
        v@ == s@,
{
    let mut v: Vec<char> = Vec::new();
    for c in it: s.chars()
        invariant
            v@ == it.seq().take(it.index() as int),
            it.seq() == s@,
    {
        v.push(c);
    }
    v
}

/// A `String` holding the given characters.
pub fn string_of(v: &[char]) -> (s: String)
    ensures
        s@ == v@,
{
    let mut s = String::new();
    for i in 0..v.len()
        invariant
            s@ == v@.take(i as int),
    {
        push_char(&mut s, v[i]);
    }
    s
}

/// Appends the characters of `t` to `v`.
pub fn extend_chars(v: &mut Vec<char>, t: &[char])
    ensures
        final(v)@ == old(v)@ + t@,
{
    for i in 0..t.len()
        invariant
            v@ == old(v)@ + t@.take(i as int),
    {
        v.push(t[i]);
    }
}

/// Appends the characters of the string `t` to `v`.
pub fn extend_str(v: &mut Vec<char>, t: &str)
    ensures
        final(v)@ == old(v)@ + t@,
{
    let tc = chars_of(t);
    extend_chars(v, &tc);
}

/// A copy of the characters `s[lo..hi]`.
pub fn copy_range(s: &[char], lo: usize, hi: usize) -> (r: Vec<char>)
    requires
        lo <= hi <= s@.len(),
    ensures
        r@ == s@.subrange(lo as int, hi as int),
{
    let mut r: Vec<char> = Vec::new();
    let mut i = lo;
    while i < hi
        invariant
            lo <= i <= hi <= s@.len(),
            r@ == s@.subrange(lo as int, i as int),
        decreases hi - i,
    {
        r.push(s[i]);
        i += 1;
    }
    r
}

/// Whether two character sequences are equal.
pub fn chars_eq(a: &[char], b: &[char]) -> (r: bool)
    ensures
        r == (a@ == b@),
{
    if a.len() != b.len() {
        return false;
    }
    for i in 0..a.len()
        invariant
            a@.len() == b@.len(),
            forall|j: int| 0 <= j < i ==> a@[j] == b@[j],
    {
        if a[i] != b[i] {
            return false;
        }
    }
    assert(a@ =~= b@);
    true
}

/// Whether the characters of `a` spell the string `b`.
pub fn chars_eq_str(a: &[char], b: &str) -> (r: bool)
    ensures
        r == (a@ == b@),
{
    let bc = chars_of(b);
    chars_eq(a, &bc)
}

// ---------------------------------------------------------------------------
// Whitespace and trimming
// ---------------------------------------------------------------------------

/// Unicode `White_Space`, the property that `char::is_whitespace` tests.
pub open spec fn is_ws(c: char) -> bool {
    let u = c as u32;
    ||| 0x9 <= u <= 0xd
    ||| u == 0x20
    ||| u == 0x85
    ||| u == 0xa0
    ||| u == 0x1680
    ||| 0x2000 <= u <= 0x200a
    ||| u == 0x2028
    ||| u == 0x2029
    ||| u == 0x202f
    ||| u == 0x205f
    ||| u == 0x3000
}

/// Whether `c` is whitespace in the sense of `char::is_whitespace`.
pub fn is_whitespace(c: char) -> (r: bool)
    ensures
        r == is_ws(c),
{
    let u = c as u32;
    (0x9 <= u && u <= 0xd) || u == 0x20 || u == 0x85 || u == 0xa0 || u == 0x1680 || (0x2000 <= u
        && u <= 0x200a) || u == 0x2028 || u == 0x2029 || u == 0x202f || u == 0x205f || u == 0x3000
}

/// `s` without its leading whitespace (`str::trim_start`).
pub open spec fn trim_start(s: Seq<char>) -> Seq<char>
    decreases s.len(),
{
    if s.len() > 0 && is_ws(s[0]) {
        trim_start(s.drop_first())
    } else {
        s
    }
}

/// `s` without its trailing whitespace (`str::trim_end`).
pub open spec fn trim_end(s: Seq<char>) -> Seq<char>
    decreases s.len(),
{
    if s.len() > 0 && is_ws(s.last()) {
        trim_end(s.drop_last())
    } else {
        s
    }
}

/// `s` without leading and trailing whitespace (`str::trim`).
pub open spec fn trim(s: Seq<char>) -> Seq<char> {
    trim_end(trim_start(s))
}

/// Whether `s` holds only whitespace (so that `s.trim()` is empty).
pub open spec fn is_blank(s: Seq<char>) -> bool {
    forall|i: int| 0 <= i < s.len() ==> is_ws(#[trigger] s[i])
}

/// Trimming away leading whitespace leaves a suffix.
pub proof fn lemma_trim_start_suffix(s: Seq<char>)
    ensures
        exists|k: int| 0 <= k <= s.len() && #[trigger] trim_start(s) == s.skip(k),
    decreases s.len(),
{
    if s.len() > 0 && is_ws(s[0]) {
        lemma_trim_start_suffix(s.drop_first());
        let k = choose|k: int|
            0 <= k <= s.drop_first().len() && #[trigger] trim_start(s.drop_first())
                == s.drop_first().skip(k);
        assert(s.drop_first().skip(k) =~= s.skip(k + 1));
    } else {
        assert(s.skip(0) =~= s);
    }
}

/// The result of `trim_start` is empty or starts with a non-whitespace character.
pub proof fn lemma_trim_start_result(s: Seq<char>)
    ensures
        trim_start(s).len() == 0 || !is_ws(trim_start(s)[0]),
        trim_start(s).len() == 0 <==> is_blank(s),
    decreases s.len(),
{
    if s.len() > 0 && is_ws(s[0]) {
        lemma_trim_start_result(s.drop_first());
        if is_blank(s.drop_first()) {
            assert forall|i: int| 0 <= i < s.len() implies is_ws(#[trigger] s[i]) by {
                if i > 0 {
                    assert(s[i] == s.drop_first()[i - 1]);
                }
            }
        }
        if is_blank(s) {
            assert forall|i: int| 0 <= i < s.drop_first().len() implies is_ws(
                #[trigger] s.drop_first()[i],
            ) by {
                assert(s.drop_first()[i] == s[i + 1]);
            }
        }
    } else {
        if s.len() > 0 {
            assert(!is_blank(s));
        }
    }
}

/// The position in `s[lo..hi]` where `trim_start` would begin.
pub fn trim_start_pos(s: &[char], lo: usize, hi: usize) -> (r: usize)
    requires
        lo <= hi <= s@.len(),
    ensures
        lo <= r <= hi,
        s@.subrange(r as int, hi as int) == trim_start(s@.subrange(lo as int, hi as int)),
{
    let mut i = lo;
    while i < hi && is_whitespace(s[i])
        invariant
            lo <= i <= hi <= s@.len(),
            trim_start(s@.subrange(i as int, hi as int)) == trim_start(
                s@.subrange(lo as int, hi as int),
            ),
        decreases hi - i,
    {
        assert(s@.subrange(i as int, hi as int).drop_first() =~= s@.subrange(
            i + 1,
            hi as int,
        ));
        i += 1;
    }
    i
}

/// The position in `s[lo..hi]` where `trim_end` would stop.
pub fn trim_end_pos(s: &[char], lo: usize, hi: usize) -> (r: usize)
    requires
        lo <= hi <= s@.len(),
    ensures
        lo <= r <= hi,
        s@.subrange(lo as int, r as int) == trim_end(s@.subrange(lo as int, hi as int)),
{
    let mut j = hi;
    while j > lo && is_whitespace(s[j - 1])
        invariant
            lo <= j <= hi <= s@.len(),
            trim_end(s@.subrange(lo as int, j as int)) == trim_end(
                s@.subrange(lo as int, hi as int),
            ),
        decreases j - lo,
    {
        assert(s@.subrange(lo as int, j as int).drop_last() =~= s@.subrange(
            lo as int,
            j - 1,
        ));
        j -= 1;
    }
    j
}

/// `s` with leading and trailing whitespace removed.
pub fn trim_chars(s: &[char]) -> (r: Vec<char>)
    ensures
        r@ == trim(s@),
{
    let a = trim_start_pos(s, 0, s.len());
    let b = trim_end_pos(s, a, s.len());
    assert(s@.subrange(0, s@.len() as int) =~= s@);
    copy_range(s, a, b)
}

/// `s` without leading and trailing whitespace (`str::trim`).
pub fn trimmed(s: &str) -> (r: String)
    ensures
        r@ == trim(s@),
{
    let c = chars_of(s);
    let t = trim_chars(&c);
    string_of(&t)
}

/// Whether `s` holds only whitespace.
pub fn blank(s: &[char]) -> (r: bool)
    ensures
        r == is_blank(s@),
{
    for i in 0..s.len()
        invariant
            forall|j: int| 0 <= j < i ==> is_ws(#[trigger] s@[j]),
    {
        if !is_whitespace(s[i]) {
            return false;
        }
    }
    true
}

// ---------------------------------------------------------------------------
// Splitting into lines and words
// ---------------------------------------------------------------------------

/// The pieces of `s` between occurrences of `sep` (`str::split`); there is one
/// more piece than there are separators.
pub open spec fn split_on(s: Seq<char>, sep: char) -> Seq<Seq<char>>
    decreases s.len(),
{
    if s.len() == 0 {
        seq![Seq::empty()]
    } else {
        let r = split_on(s.drop_last(), sep);
        if s.last() == sep {
            r.push(Seq::empty())
        } else {
            r.update(r.len() - 1, r.last().push(s.last()))
        }
    }
}

pub proof fn lemma_split_on_nonempty(s: Seq<char>, sep: char)
    ensures
        split_on(s, sep).len() >= 1,
    decreases s.len(),
{
    if s.len() > 0 {
        lemma_split_on_nonempty(s.drop_last(), sep);
    }
}

/// A line without a final carriage return.
pub open spec fn strip_cr(l: Seq<char>) -> Seq<char> {
    if l.len() > 0 && l.last() == '\r' {
        l.drop_last()
    } else {
        l
    }
}

/// The lines of `s` as `str::lines` yields them: split at `\n`, a final empty
/// piece dropped, and one `\r` removed before each `\n`.
pub open spec fn lines(s: Seq<char>) -> Seq<Seq<char>> {
    let p = split_on(s, '\n');
    let ended = p.drop_last().map_values(|l: Seq<char>| strip_cr(l));
    if p.last().len() == 0 {
        ended
    } else {
        ended.push(p.last())
    }
}

/// The views of a vector of character vectors.
pub open spec fn views(v: Seq<Vec<char>>) -> Seq<Seq<char>> {
    v.map_values(|x: Vec<char>| x@)
}

/// The pieces of `s` between occurrences of `sep`.
pub fn split_chars(s: &[char], sep: char) -> (r: Vec<Vec<char>>)
    ensures
        views(r@) == split_on(s@, sep),
{
    let mut pieces: Vec<Vec<char>> = Vec::new();
    let mut cur: Vec<char> = Vec::new();
    assert(s@.take(0) =~= Seq::<char>::empty());
    for i in 0..s.len()
        invariant
            views(pieces@).push(cur@) == split_on(s@.take(i as int), sep),
    {
        proof {
            assert(s@.take(i + 1).drop_last() =~= s@.take(i as int));
            lemma_split_on_nonempty(s@.take(i as int), sep);
        }
        if s[i] == sep {
            let done = cur;
            cur = Vec::new();
            pieces.push(done);
            assert(views(pieces@).push(cur@) =~= split_on(s@.take(i + 1), sep));
        } else {
            cur.push(s[i]);
            assert(views(pieces@).push(cur@) =~= split_on(s@.take(i + 1), sep));
        }
    }
    assert(s@.take(s@.len() as int) =~= s@);
    pieces.push(cur);
    assert(views(pieces@) =~= split_on(s@, sep));
    pieces
}

/// `l` without a final `\r`.
pub fn strip_cr_chars(l: &[char]) -> (r: Vec<char>)
    ensures
        r@ == strip_cr(l@),
{
    if l.len() > 0 && l[l.len() - 1] == '\r' {
        copy_range(l, 0, l.len() - 1)
    } else {
        assert(l@.subrange(0, l@.len() as int) =~= l@);
        copy_range(l, 0, l.len())
    }
}

/// The lines of `s` (`str::lines`).
pub fn lines_of(s: &[char]) -> (r: Vec<Vec<char>>)
    ensures
        views(r@) == lines(s@),
{
    let p = split_chars(s, '\n');
    proof {
        lemma_split_on_nonempty(s@, '\n');
    }
    let ghost q = split_on(s@, '\n').drop_last();
    let ended = p.len() - 1;
    let mut r: Vec<Vec<char>> = Vec::new();
    for i in 0..ended
        invariant
            ended == q.len(),
            q.len() + 1 == p@.len(),
            views(p@) == split_on(s@, '\n'),
            forall|j: int| 0 <= j < q.len() ==> q[j] == #[trigger] split_on(s@, '\n')[j],
            views(r@) == q.take(i as int).map_values(|l: Seq<char>| strip_cr(l)),
    {
        assert(views(p@)[i as int] == p@[i as int]@);
        assert(p@[i as int]@ == q[i as int]);
        let l = strip_cr_chars(&p[i]);
        let ghost prev = views(r@);
        r.push(l);
        assert(views(r@) =~= prev.push(strip_cr(q[i as int])));
        assert(q.take(i + 1).map_values(|l: Seq<char>| strip_cr(l)) =~= q.take(
            i as int,
        ).map_values(|l: Seq<char>| strip_cr(l)).push(strip_cr(q[i as int])));
    }
    assert(q.take(ended as int) =~= q);
    assert(views(p@)[ended as int] == p@[ended as int]@);
    if p[ended].len() > 0 {
        let last = copy_range(&p[ended], 0, p[ended].len());
        assert(last@ =~= p@[ended as int]@);
        let ghost prev = views(r@);
        r.push(last);
        assert(views(r@) =~= prev.push(split_on(s@, '\n').last()));
    }
    r
}

/// The words of `s` as `str::split_whitespace` yields them.
pub open spec fn words(s: Seq<char>) -> Seq<Seq<char>>
    decreases s.len(),
{
    if s.len() == 0 {
        seq![]
    } else {
        let r = words(s.drop_last());
        if is_ws(s.last()) {
            r
        } else if s.len() >= 2 && !is_ws(s[s.len() - 2]) {
            r.update(r.len() - 1, r.last().push(s.last()))
        } else {
            r.push(seq![s.last()])
        }
    }
}

pub proof fn lemma_words_nonempty(s: Seq<char>)
    requires
        s.len() > 0,
        !is_ws(s.last()),
    ensures
        words(s).len() >= 1,
    decreases s.len(),
{
    if s.len() >= 2 && !is_ws(s[s.len() - 2]) {
        assert(s.drop_last().last() == s[s.len() - 2]);
        lemma_words_nonempty(s.drop_last());
    }
}

/// The whitespace-separated words of `s` (`str::split_whitespace`).
pub fn words_of(s: &[char]) -> (r: Vec<Vec<char>>)
    ensures
        views(r@) == words(s@),
{
    let mut done: Vec<Vec<char>> = Vec::new();
    let mut cur: Vec<char> = Vec::new();
    let mut in_word = false;
    assert(s@.take(0) =~= Seq::<char>::empty());
    for i in 0..s.len()
        invariant
            in_word == (i > 0 && !is_ws(s@[i - 1])),
            in_word ==> views(done@).push(cur@) == words(s@.take(i as int)),
            !in_word ==> views(done@) == words(s@.take(i as int)),
    {
        proof {
            assert(s@.take(i + 1).drop_last() =~= s@.take(i as int));
            assert(s@.take(i + 1).last() == s@[i as int]);
            if i > 0 {
                assert(s@.take(i + 1)[i - 1] == s@[i - 1]);
            }
        }
        let c = s[i];
        if is_whitespace(c) {
            if in_word {
                let w = cur;
                cur = Vec::new();
                done.push(w);
                in_word = false;
            }
            assert(views(done@) =~= words(s@.take(i + 1)));
        } else {
            if in_word {
                cur.push(c);
                assert(views(done@).push(cur@) =~= words(s@.take(i + 1)));
            } else {
                cur = Vec::new();
                cur.push(c);
                assert(views(done@).push(cur@) =~= words(s@.take(i + 1)));
                in_word = true;
            }
        }
    }
    assert(s@.take(s@.len() as int) =~= s@);
    if in_word {
        done.push(cur);
    }
    done
}

// ---------------------------------------------------------------------------
// Searching
// ---------------------------------------------------------------------------

/// `t` occurs in `s` at position `i`.
pub open spec fn occurs_at(s: Seq<char>, t: Seq<char>, i: int) -> bool {
    0 <= i && i + t.len() <= s.len() && s.subrange(i, i + t.len()) == t
}

/// The first position at or after `i` where `t` occurs in `s`.
pub open spec fn find_from(s: Seq<char>, t: Seq<char>, i: int) -> Option<int>
    decreases s.len() + 1 - i,
{
    if i < 0 || i + t.len() > s.len() {
        None
    } else if occurs_at(s, t, i) {
        Some(i)
    } else {
        find_from(s, t, i + 1)
    }
}

/// The first position where `t` occurs in `s` (`str::find`).
pub open spec fn find(s: Seq<char>, t: Seq<char>) -> Option<int> {
    find_from(s, t, 0)
}

/// `s` has `t` as a substring (`str::contains`).
pub open spec fn contains(s: Seq<char>, t: Seq<char>) -> bool {
    find(s, t) is Some
}

/// `s` starts with `t` (`str::starts_with`).
pub open spec fn starts_with(s: Seq<char>, t: Seq<char>) -> bool {
    occurs_at(s, t, 0)
}

/// `s` ends with `t` (`str::ends_with`).
pub open spec fn ends_with(s: Seq<char>, t: Seq<char>) -> bool {
    t.len() <= s.len() && occurs_at(s, t, s.len() - t.len())
}

/// What `find_from` returns is an occurrence, and none comes before it.
pub proof fn lemma_find_from(s: Seq<char>, t: Seq<char>, i: int)
    requires
        0 <= i,
    ensures
        find_from(s, t, i) matches Some(k) ==> i <= k && occurs_at(s, t, k) && forall|j: int|
            i <= j < k ==> !occurs_at(s, t, j),
        find_from(s, t, i) is None ==> forall|j: int| i <= j ==> !occurs_at(s, t, j),
    decreases s.len() + 1 - i,
{
    if i + t.len() > s.len() {
    } else if occurs_at(s, t, i) {
    } else {
        lemma_find_from(s, t, i + 1);
    }
}

/// Whether `t` occurs in `s` at `i`.
pub fn occurs_at_exec(s: &[char], t: &[char], i: usize) -> (r: bool)
    ensures
        r == occurs_at(s@, t@, i as int),
{
    if i > s.len() || t.len() > s.len() - i {
        return false;
    }
    for j in 0..t.len()
        invariant
            i + t@.len() <= s@.len(),
            i + t.len() <= s.len(),
            forall|k: int| 0 <= k < j ==> s@[i + k] == t@[k],
    {
        if s[i + j] != t[j] {
            return false;
        }
    }
    assert(s@.subrange(i as int, i + t@.len()) =~= t@);
    true
}

/// The first position at or after `from` where `t` occurs in `s`.
pub fn find_chars_from(s: &[char], t: &[char], from: usize) -> (r: Option<usize>)
    ensures
        r matches Some(k) ==> find_from(s@, t@, from as int) == Some(k as int),
        r is None ==> find_from(s@, t@, from as int) is None,
{
    let mut i = from;
    if i > s.len() {
        return None;
    }
    loop
        invariant
            from <= i <= s@.len(),
            find_from(s@, t@, i as int) == find_from(s@, t@, from as int),
        decreases s@.len() - i,
    {
        if t.len() > s.len() - i {
            return None;
        }
        if occurs_at_exec(s, t, i) {
            return Some(i);
        }
        assert(t@.len() > 0) by {
            if t@.len() == 0 {
                assert(s@.subrange(i as int, i as int) =~= t@);
            }
        }
        i += 1;
    }
}

/// The first position where `t` occurs in `s`.
pub fn find_chars(s: &[char], t: &[char]) -> (r: Option<usize>)
    ensures
        r matches Some(k) ==> find(s@, t@) == Some(k as int),
        r is None ==> find(s@, t@) is None,
{
    find_chars_from(s, t, 0)
}

/// Whether `t` occurs in `s`.
pub fn contains_chars(s: &[char], t: &[char]) -> (r: bool)
    ensures
        r == contains(s@, t@),
{
    find_chars(s, t).is_some()
}

// ---------------------------------------------------------------------------
// Joining and numbers
// ---------------------------------------------------------------------------

/// The parts joined with `sep` between neighbours (`[T]::join`).
pub open spec fn join(parts: Seq<Seq<char>>, sep: Seq<char>) -> Seq<char>
    decreases parts.len(),
{
    if parts.len() == 0 {
        seq![]
    } else if parts.len() == 1 {
        parts[0]
    } else {
        join(parts.drop_last(), sep) + sep + parts.last()
    }
}

/// The parts joined with `sep` between neighbours.
pub fn join_chars(parts: &[Vec<char>], sep: &[char]) -> (r: Vec<char>)
    ensures
        r@ == join(views(parts@), sep@),
{
    let mut r: Vec<char> = Vec::new();
    for i in 0..parts.len()
        invariant
            r@ == join(views(parts@).take(i as int), sep@),
    {
        proof {
            assert(views(parts@).take(i + 1).drop_last() =~= views(parts@).take(i as int));
        }
        if i > 0 {
            extend_chars(&mut r, sep);
        }
        extend_chars(&mut r, &parts[i]);
        proof {
            if i == 0 {
                assert(r@ =~= join(views(parts@).take(1), sep@));
            }
        }
    }
    assert(views(parts@).take(parts@.len() as int) =~= views(parts@));
    r
}

/// The decimal digit for `d < 10`.
pub open spec fn digit_char(d: nat) -> char {
    if d == 0 {
        '0'
    } else if d == 1 {
        '1'
    } else if d == 2 {
        '2'
    } else if d == 3 {
        '3'
    } else if d == 4 {
        '4'
    } else if d == 5 {
        '5'
    } else if d == 6 {
        '6'
    } else if d == 7 {
        '7'
    } else if d == 8 {
        '8'
    } else {
        '9'
    }
}

/// The decimal notation of `n`, without leading zeros (`Display` of integers).
pub open spec fn decimal(n: nat) -> Seq<char>
    decreases n,
{
    if n < 10 {
        seq![digit_char(n)]
    } else {
        decimal(n / 10).push(digit_char(n % 10))
    }
}

/// The decimal notation of a signed integer: a `-` before negative numbers.
pub open spec fn signed_decimal(n: int) -> Seq<char> {
    if n < 0 {
        seq!['-'] + decimal((-n) as nat)
    } else {
        decimal(n as nat)
    }
}

/// `n` in decimal, zero-padded on the left to at least `width` digits.
pub open spec fn padded_decimal(n: nat, width: nat) -> Seq<char> {
    let d = decimal(n);
    if d.len() >= width {
        d
    } else {
        Seq::new((width - d.len()) as nat, |i: int| '0') + d
    }
}

fn digit(d: u64) -> (c: char)
    requires
        d < 10,
    ensures
        c == digit_char(d as nat),
{
    if d == 0 {
        '0'
    } else if d == 1 {
        '1'
    } else if d == 2 {
        '2'
    } else if d == 3 {
        '3'
    } else if d == 4 {
        '4'
    } else if d == 5 {
        '5'
    } else if d == 6 {
        '6'
    } else if d == 7 {
        '7'
    } else if d == 8 {
        '8'
    } else {
        '9'
    }
}

/// The decimal notation of `n`.
pub fn decimal_chars(n: u64) -> (r: Vec<char>)
    ensures
        r@ == decimal(n as nat),
{
    let mut v: Vec<char> = Vec::new();
    let mut m = n;
    loop
        invariant_except_break
            m > 0 || (m == 0 && n == 0 && v@.len() == 0),
            decimal(n as nat) == decimal(m as nat) + v@,
        ensures
            v@ == decimal(n as nat),
        decreases m,
    {
        let d = digit(m % 10);
        v.insert(0, d);
        if m < 10 {
            assert(v@ =~= decimal(n as nat));
            break;
        }
        assert(decimal(m as nat) == decimal((m / 10) as nat).push(digit_char((m % 10) as nat)));
        m = m / 10;
        assert(decimal(n as nat) =~= decimal(m as nat) + v@);
    }
    v
}

/// The decimal notation of a signed integer.
pub fn signed_decimal_chars(n: i64) -> (r: Vec<char>)
    ensures
        r@ == signed_decimal(n as int),
{
    if n < 0 {
        let m: u64 = if n == i64::MIN {
            9223372036854775808u64
        } else {
            (-n) as u64
        };
        let mut r: Vec<char> = Vec::new();
        r.push('-');
        let d = decimal_chars(m);
        extend_chars(&mut r, &d);
        assert(r@ =~= seq!['-'] + decimal((-n) as nat));
        r
    } else {
        decimal_chars(n as u64)
    }
}

/// `n` in decimal, zero-padded to at least `width` digits.
pub fn padded_decimal_chars(n: u64, width: usize) -> (r: Vec<char>)
    ensures
        r@ == padded_decimal(n as nat, width as nat),
{
    let d = decimal_chars(n);
    if d.len() >= width {
        d
    } else {
        let mut r: Vec<char> = Vec::new();
        let pad = width - d.len();
        for i in 0..pad
            invariant
                r@ == Seq::new(i as nat, |k: int| '0'),
        {
            r.push('0');
            assert(r@ =~= Seq::new((i + 1) as nat, |k: int| '0'));
        }
        extend_chars(&mut r, &d);
        r
    }
}

// ---------------------------------------------------------------------------
// Splitting and joining undo each other
// ---------------------------------------------------------------------------

/// `s` has no character `c`.
pub open spec fn free_of(s: Seq<char>, c: char) -> bool {
    forall|i: int| 0 <= i < s.len() ==> s[i] != c
}

/// Extending the last of several parts extends their join.
pub proof fn lemma_join_extend_last(parts: Seq<Seq<char>>, sep: Seq<char>, x: char)
    requires
        parts.len() >= 1,
    ensures
        join(parts.update(parts.len() - 1, parts.last().push(x)), sep) == join(parts, sep).push(x),
{
    let q = parts.update(parts.len() - 1, parts.last().push(x));
    if parts.len() >= 2 {
        assert(q.drop_last() =~= parts.drop_last());
        assert(join(q, sep) =~= join(parts, sep).push(x));
    }
}

/// Joining the pieces of `s` with the separator gives `s` back.
pub proof fn lemma_join_split(s: Seq<char>, c: char)
    ensures
        join(split_on(s, c), seq![c]) == s,
    decreases s.len(),
{
    if s.len() > 0 {
        lemma_join_split(s.drop_last(), c);
        lemma_split_on_nonempty(s.drop_last(), c);
        let r = split_on(s.drop_last(), c);
        if s.last() == c {
            assert(r.push(Seq::empty()).drop_last() =~= r);
            assert(join(r.push(Seq::empty()), seq![c]) =~= s);
        } else {
            lemma_join_extend_last(r, seq![c], s.last());
            assert(s.drop_last().push(s.last()) =~= s);
        }
    } else {
        assert(join(split_on(s, c), seq![c]) =~= s);
    }
}

/// Text after a separator is split on its own.
pub proof fn lemma_split_append(f: Seq<char>, r: Seq<char>, c: char)
    requires
        f.len() > 0,
        f.last() == c,
    ensures
        split_on(f + r, c) == split_on(f, c).drop_last() + split_on(r, c),
    decreases r.len(),
{
    lemma_split_on_nonempty(f.drop_last(), c);
    assert(split_on(f, c).drop_last() =~= split_on(f.drop_last(), c));
    if r.len() == 0 {
        assert(f + r =~= f);
        assert(split_on(f, c) =~= split_on(f.drop_last(), c).push(Seq::empty()));
    } else {
        lemma_split_append(f, r.drop_last(), c);
        lemma_split_on_nonempty(r.drop_last(), c);
        assert((f + r).drop_last() =~= f + r.drop_last());
        assert((f + r).last() == r.last());
        let p = split_on(f, c).drop_last();
        let q = split_on(r.drop_last(), c);
        if r.last() == c {
            assert((p + q).push(Seq::empty()) =~= p + q.push(Seq::empty()));
        } else {
            assert((p + q).update((p + q).len() - 1, (p + q).last().push(r.last())) =~= p
                + q.update(q.len() - 1, q.last().push(r.last())));
        }
    }
}

/// Text without the separator is a single piece.
pub proof fn lemma_split_free(x: Seq<char>, c: char)
    requires
        free_of(x, c),
    ensures
        split_on(x, c) == seq![x],
    decreases x.len(),
{
    if x.len() > 0 {
        lemma_split_free(x.drop_last(), c);
        assert(x.last() != c);
        assert(x.drop_last().push(x.last()) =~= x);
        assert(seq![x.drop_last()].update(0, x.drop_last().push(x.last())) =~= seq![x]);
    } else {
        assert(x =~= Seq::<char>::empty());
    }
}

/// The pieces of text without `d` have no `d` either.
pub proof fn lemma_split_pieces_free(s: Seq<char>, c: char, d: char)
    requires
        free_of(s, d),
    ensures
        forall|k: int| 0 <= k < split_on(s, c).len() ==> free_of(#[trigger] split_on(s, c)[k], d),
    decreases s.len(),
{
    if s.len() > 0 {
        lemma_split_pieces_free(s.drop_last(), c, d);
        lemma_split_on_nonempty(s.drop_last(), c);
        let r = split_on(s.drop_last(), c);
        assert(free_of(r.last(), d));
        if s.last() != c {
            assert(free_of(r.last().push(s.last()), d));
            assert forall|k: int| 0 <= k < split_on(s, c).len() implies free_of(
                #[trigger] split_on(s, c)[k],
                d,
            ) by {
                if k < r.len() - 1 {
                    assert(split_on(s, c)[k] == r[k]);
                }
            }
        } else {
            assert forall|k: int| 0 <= k < split_on(s, c).len() implies free_of(
                #[trigger] split_on(s, c)[k],
                d,
            ) by {
                if k < r.len() {
                    assert(split_on(s, c)[k] == r[k]);
                }
            }
        }
    }
}

/// Without carriage returns, the lines are just the pieces between line
/// breaks, a final empty piece dropped.
pub proof fn lemma_lines_free_of_cr(s: Seq<char>)
    requires
        free_of(s, '\r'),
    ensures
        lines(s) == (if split_on(s, '\n').last().len() == 0 {
            split_on(s, '\n').drop_last()
        } else {
            split_on(s, '\n')
        }),
{
    lemma_split_pieces_free(s, '\n', '\r');
    lemma_split_on_nonempty(s, '\n');
    let p = split_on(s, '\n');
    assert forall|k: int| 0 <= k < p.len() implies strip_cr(#[trigger] p[k]) == p[k] by {
        assert(free_of(p[k], '\r'));
        if p[k].len() > 0 {
            assert(p[k].last() == p[k][p[k].len() - 1]);
        }
    }
    assert(p.drop_last().map_values(|l: Seq<char>| strip_cr(l)) =~= p.drop_last());
    assert(p.drop_last().push(p.last()) =~= p);
}

/// A line without line breaks, followed by one, comes first in the lines.
pub proof fn lemma_lines_first_line(x: Seq<char>, r: Seq<char>)
    requires
        free_of(x, '\n'),
        free_of(x, '\r'),
    ensures
        lines(x + seq!['\n'] + r) == seq![x] + lines(r),
{
    let f = x + seq!['\n'];
    lemma_split_free(x, '\n');
    assert(f.drop_last() =~= x);
    assert(split_on(f, '\n') == split_on(x, '\n').push(Seq::empty()));
    lemma_split_append(f, r, '\n');
    lemma_split_on_nonempty(r, '\n');
    let q = split_on(r, '\n');
    let p = split_on(f + r, '\n');
    assert(split_on(f, '\n').drop_last() =~= seq![x]);
    assert(p == seq![x] + q);
    assert(p.last() == q.last());
    assert(p.drop_last() =~= seq![x] + q.drop_last());
    assert(strip_cr(x) == x) by {
        if x.len() > 0 {
            assert(x.last() == x[x.len() - 1]);
        }
    }
    assert(p.drop_last().map_values(|l: Seq<char>| strip_cr(l)) =~= seq![x] + q.drop_last().map_values(
        |l: Seq<char>| strip_cr(l),
    ));
    if q.last().len() == 0 {
        assert(lines(f + r) =~= seq![x] + lines(r));
    } else {
        assert(lines(f + r) =~= seq![x] + lines(r));
    }
}

/// The first occurrence at or after `from` is the one at `i` when there is
/// none in between.
pub proof fn lemma_find_from_first(s: Seq<char>, t: Seq<char>, from: int, i: int)
    requires
        0 <= from <= i,
        occurs_at(s, t, i),
        forall|j: int| from <= j < i ==> !occurs_at(s, t, j),
    ensures
        find_from(s, t, from) == Some(i),
    decreases i - from,
{
    if from < i {
        lemma_find_from_first(s, t, from + 1, i);
    }
}

/// Decimal notation uses digits only.
pub proof fn lemma_decimal_digits(n: nat)
    ensures
        forall|k: int| 0 <= k < decimal(n).len() ==> '0' <= #[trigger] decimal(n)[k] <= '9',
        decimal(n).len() >= 1,
    decreases n,
{
    if n >= 10 {
        lemma_decimal_digits(n / 10);
        assert forall|k: int| 0 <= k < decimal(n).len() implies '0' <= #[trigger] decimal(n)[k]
            <= '9' by {
            if k < decimal(n / 10).len() {
                assert(decimal(n)[k] == decimal(n / 10)[k]);
            }
        }
    }
}

} // verus!
