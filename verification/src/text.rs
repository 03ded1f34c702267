//! Character-sequence helpers shared by the configuration parser and the
//! comment merger: whitespace trimming, character search, and splitting a
//! sequence into segments or lines.

use vstd::prelude::*;

verus! {

/// The whitespace characters recognized when trimming tokens: the
/// Unicode `White_Space` set, as `char::is_whitespace` defines it.
pub open spec fn is_ws(c: char) -> bool {
    c == '\t' || c == '\n' || c == '\u{b}' || c == '\u{c}' || c == '\r' || c == ' '
        || c == '\u{85}' || c == '\u{a0}' || c == '\u{1680}' || c == '\u{2000}' || c == '\u{2001}'
        || c == '\u{2002}' || c == '\u{2003}' || c == '\u{2004}' || c == '\u{2005}'
        || c == '\u{2006}' || c == '\u{2007}' || c == '\u{2008}' || c == '\u{2009}'
        || c == '\u{200a}' || c == '\u{2028}' || c == '\u{2029}' || c == '\u{202f}'
        || c == '\u{205f}' || c == '\u{3000}'
}

/// Every character of `s` is whitespace.
pub open spec fn all_ws(s: Seq<char>) -> bool {
    forall|j: int| 0 <= j < s.len() ==> is_ws(s[j])
}

/// `s` contains the character `c` somewhere.
pub open spec fn has_char(s: Seq<char>, c: char) -> bool {
    exists|j: int| 0 <= j < s.len() && s[j] == c
}

/// Index of the first occurrence of `c` in `s`, or `s.len()` if absent.
pub open spec fn find_char(s: Seq<char>, c: char) -> int
    decreases s.len(),
{
    if s.len() == 0 {
        0
    } else if s[0] == c {
        0
    } else {
        1 + find_char(s.subrange(1, s.len() as int), c)
    }
}

/// Number of occurrences of `c` in `s`.
pub open spec fn count_char(s: Seq<char>, c: char) -> nat
    decreases s.len(),
{
    if s.len() == 0 {
        0
    } else {
        (if s[0] == c {
            1nat
        } else {
            0nat
        }) + count_char(s.subrange(1, s.len() as int), c)
    }
}

/// `find_char` returns a position within bounds, the character there is
/// `c`, and no earlier position holds `c`.
pub proof fn lemma_find_char(s: Seq<char>, c: char)
    ensures
        0 <= find_char(s, c) <= s.len(),
        find_char(s, c) < s.len() ==> s[find_char(s, c)] == c,
        forall|j: int| 0 <= j < find_char(s, c) ==> s[j] != c,
    decreases s.len(),
{
    if s.len() == 0 {
    } else if s[0] == c {
    } else {
        let t = s.subrange(1, s.len() as int);
        lemma_find_char(t, c);
        assert forall|j: int| 0 <= j < find_char(s, c) implies s[j] != c by {
            if j > 0 {
                assert(t[j - 1] == s[j]);
            }
        }
    }
}

/// A position that holds `c` with no earlier occurrence is exactly what
/// `find_char` returns; `s.len()` is returned exactly when `c` is absent.
pub proof fn lemma_find_char_is(s: Seq<char>, c: char, i: int)
    requires
        0 <= i <= s.len(),
        i < s.len() ==> s[i] == c,
        forall|j: int| 0 <= j < i ==> s[j] != c,
    ensures
        find_char(s, c) == i,
    decreases s.len(),
{
    if s.len() == 0 {
    } else if s[0] == c {
        assert(i == 0);
    } else {
        let t = s.subrange(1, s.len() as int);
        assert(i >= 1);
        assert forall|j: int| 0 <= j < i - 1 implies t[j] != c by {
            assert(t[j] == s[j + 1]);
        }
        if i < s.len() {
            assert(t[i - 1] == s[i]);
        }
        lemma_find_char_is(t, c, i - 1);
    }
}

/// `c` occurs in `s` exactly when `find_char` points inside `s`.
pub proof fn lemma_has_char_find(s: Seq<char>, c: char)
    ensures
        has_char(s, c) <==> find_char(s, c) < s.len(),
{
    lemma_find_char(s, c);
    if find_char(s, c) < s.len() {
        assert(s[find_char(s, c)] == c);
    }
    if has_char(s, c) {
        let j = choose|j: int| 0 <= j < s.len() && s[j] == c;
        assert(!(j < find_char(s, c)));
    }
}

/// `count_char` counted through the first occurrence: zero when the
/// character is absent, else one more than the count after it.
pub proof fn lemma_count_split(s: Seq<char>, c: char)
    ensures
        find_char(s, c) == s.len() ==> count_char(s, c) == 0,
        find_char(s, c) < s.len() ==> count_char(s, c) == 1 + count_char(
            s.subrange(find_char(s, c) + 1, s.len() as int),
            c,
        ),
    decreases s.len(),
{
    lemma_find_char(s, c);
    if s.len() == 0 {
    } else if s[0] == c {
    } else {
        let t = s.subrange(1, s.len() as int);
        lemma_count_split(t, c);
        lemma_find_char(t, c);
        if find_char(t, c) < t.len() {
            assert(s.subrange(find_char(s, c) + 1, s.len() as int) =~= t.subrange(
                find_char(t, c) + 1,
                t.len() as int,
            ));
        }
    }
}

/// `s` with its leading whitespace removed.
pub open spec fn trim_front(s: Seq<char>) -> Seq<char>
    decreases s.len(),
{
    if s.len() > 0 && is_ws(s[0]) {
        trim_front(s.subrange(1, s.len() as int))
    } else {
        s
    }
}

/// `s` with its trailing whitespace removed.
pub open spec fn trim_back(s: Seq<char>) -> Seq<char>
    decreases s.len(),
{
    if s.len() > 0 && is_ws(s[s.len() - 1]) {
        trim_back(s.subrange(0, s.len() - 1))
    } else {
        s
    }
}

/// `s` with leading and trailing whitespace removed.
pub open spec fn spec_trim(s: Seq<char>) -> Seq<char> {
    trim_back(trim_front(s))
}

/// Removing leading whitespace keeps exactly the suffix that starts at the
/// first non-whitespace character.
pub proof fn lemma_trim_front_at(s: Seq<char>, a: int)
    requires
        0 <= a <= s.len(),
        forall|j: int| 0 <= j < a ==> is_ws(s[j]),
        a < s.len() ==> !is_ws(s[a]),
    ensures
        trim_front(s) =~= s.subrange(a, s.len() as int),
    decreases s.len(),
{
    if s.len() > 0 && is_ws(s[0]) {
        let t = s.subrange(1, s.len() as int);
        assert(a >= 1);
        assert forall|j: int| 0 <= j < a - 1 implies is_ws(t[j]) by {
            assert(t[j] == s[j + 1]);
        }
        lemma_trim_front_at(t, a - 1);
    } else {
        assert(a == 0);
    }
}

/// Removing trailing whitespace keeps exactly the prefix that ends after
/// the last non-whitespace character.
pub proof fn lemma_trim_back_at(s: Seq<char>, b: int)
    requires
        0 <= b <= s.len(),
        forall|j: int| b <= j < s.len() ==> is_ws(s[j]),
        b > 0 ==> !is_ws(s[b - 1]),
    ensures
        trim_back(s) =~= s.subrange(0, b),
    decreases s.len(),
{
    if s.len() > 0 && is_ws(s[s.len() - 1]) {
        let t = s.subrange(0, s.len() - 1);
        assert(b < s.len());
        lemma_trim_back_at(t, b);
    } else {
    }
}

/// Trimming removes surrounding whitespace and nothing else: with
/// whitespace on both sides of a core that neither starts nor ends with
/// whitespace, exactly the core remains.
pub proof fn lemma_trim_surround(w1: Seq<char>, x: Seq<char>, w2: Seq<char>)
    requires
        all_ws(w1),
        all_ws(w2),
        x.len() > 0,
        !is_ws(x[0]),
        !is_ws(x[x.len() - 1]),
    ensures
        spec_trim(w1 + x + w2) =~= x,
{
    let s = w1 + x + w2;
    assert(s[w1.len() as int] == x[0]);
    lemma_trim_front_at(s, w1.len() as int);
    let t = trim_front(s);
    assert(t =~= x + w2);
    assert(t[x.len() - 1] == x[x.len() - 1]);
    assert forall|j: int| x.len() <= j < t.len() implies is_ws(t[j]) by {
        assert(t[j] == w2[j - x.len()]);
    }
    lemma_trim_back_at(t, x.len() as int);
}

/// A sequence of whitespace alone trims to the empty sequence.
pub proof fn lemma_trim_all_ws(s: Seq<char>)
    requires
        all_ws(s),
    ensures
        spec_trim(s) =~= Seq::<char>::empty(),
{
    lemma_trim_front_at(s, s.len() as int);
    let t = trim_front(s);
    lemma_trim_back_at(t, 0);
}

/// The segments of `s` between occurrences of the separator `c`, in
/// order. There is always at least one segment: an empty `s` yields one
/// empty segment, and a trailing separator yields a trailing empty
/// segment.
pub open spec fn spec_split(s: Seq<char>, c: char) -> Seq<Seq<char>>
    decreases s.len(),
    via spec_split_dec
{
    let i = find_char(s, c);
    if i == s.len() {
        seq![s]
    } else {
        seq![s.subrange(0, i)] + spec_split(s.subrange(i + 1, s.len() as int), c)
    }
}

#[via_fn]
proof fn spec_split_dec(s: Seq<char>, c: char) {
    lemma_find_char(s, c);
}

/// The lines of `s`: the segments between newline characters, except
/// that an empty `s` has no lines and a trailing newline does not open a
/// final empty line.
pub open spec fn spec_lines(s: Seq<char>) -> Seq<Seq<char>>
    decreases s.len(),
    via spec_lines_dec
{
    if s.len() == 0 {
        Seq::empty()
    } else {
        let i = find_char(s, '\n');
        if i == s.len() {
            seq![s]
        } else {
            seq![s.subrange(0, i)] + spec_lines(s.subrange(i + 1, s.len() as int))
        }
    }
}

#[via_fn]
proof fn spec_lines_dec(s: Seq<char>) {
    lemma_find_char(s, '\n');
}

/// A sequence without the separator splits into itself alone.
pub proof fn lemma_split_whole(s: Seq<char>, c: char)
    requires
        !has_char(s, c),
    ensures
        spec_split(s, c) == seq![s],
{
    lemma_has_char_find(s, c);
    lemma_find_char(s, c);
}

/// Splitting a sequence that starts with a separator-free segment
/// followed by the separator peels off that first segment.
pub proof fn lemma_split_step(x: Seq<char>, y: Seq<char>, c: char)
    requires
        !has_char(x, c),
    ensures
        spec_split(x + seq![c] + y, c) == seq![x] + spec_split(y, c),
{
    let s = x + seq![c] + y;
    assert forall|j: int| 0 <= j < x.len() implies s[j] != c by {
        assert(s[j] == x[j]);
        assert(!(0 <= j < x.len() && x[j] == c));
    }
    assert(s[x.len() as int] == c);
    lemma_find_char_is(s, c, x.len() as int);
    assert(s.subrange(0, x.len() as int) =~= x);
    assert(s.subrange(x.len() as int + 1, s.len() as int) =~= y);
}

/// A line with one trailing carriage return removed, if it has one:
/// lines are read as the platform's buffered line reader reads them,
/// splitting at `\n` and dropping one `\r` right before it.
pub open spec fn chomp_cr(l: Seq<char>) -> Seq<char> {
    if l.len() > 0 && l[l.len() - 1] == '\r' {
        l.subrange(0, l.len() - 1)
    } else {
        l
    }
}

/// Every line with its trailing carriage return removed.
pub open spec fn chomp_lines(ls: Seq<Seq<char>>) -> Seq<Seq<char>> {
    ls.map_values(|l: Seq<char>| chomp_cr(l))
}

/// A non-empty sequence without a newline is one line.
pub proof fn lemma_lines_whole(s: Seq<char>)
    requires
        s.len() > 0,
        !has_char(s, '\n'),
    ensures
        spec_lines(s) == seq![s],
{
    lemma_has_char_find(s, '\n');
    lemma_find_char(s, '\n');
}

/// The lines of a sequence that starts with a newline-free segment
/// followed by a newline begin with that segment.
pub proof fn lemma_lines_step(x: Seq<char>, y: Seq<char>)
    requires
        !has_char(x, '\n'),
    ensures
        spec_lines(x + seq!['\n'] + y) == seq![x] + spec_lines(y),
{
    let s = x + seq!['\n'] + y;
    assert forall|j: int| 0 <= j < x.len() implies s[j] != '\n' by {
        assert(s[j] == x[j]);
        assert(!(0 <= j < x.len() && x[j] == '\n'));
    }
    assert(s[x.len() as int] == '\n');
    lemma_find_char_is(s, '\n', x.len() as int);
    assert(s.subrange(0, x.len() as int) =~= x);
    assert(s.subrange(x.len() as int + 1, s.len() as int) =~= y);
}

/// No line produced by `spec_lines` contains a newline character.
pub proof fn lemma_lines_no_newline(s: Seq<char>)
    ensures
        forall|i: int| 0 <= i < spec_lines(s).len() ==> !has_char(#[trigger] spec_lines(s)[i], '\n'),
    decreases s.len(),
{
    lemma_find_char(s, '\n');
    if s.len() == 0 {
    } else {
        let i = find_char(s, '\n');
        if i == s.len() {
            lemma_has_char_find(s, '\n');
        } else {
            let x = s.subrange(0, i);
            let rest = s.subrange(i + 1, s.len() as int);
            assert forall|j: int| 0 <= j < x.len() implies x[j] != '\n' by {
                assert(x[j] == s[j]);
            }
            assert(!has_char(x, '\n'));
            lemma_lines_no_newline(rest);
            assert forall|k: int| 0 <= k < spec_lines(s).len() implies !has_char(
                #[trigger] spec_lines(s)[k],
                '\n',
            ) by {
                if k == 0 {
                    assert(spec_lines(s)[0] == x);
                } else {
                    assert(spec_lines(s)[k] == spec_lines(rest)[k - 1]);
                }
            }
        }
    }
}

/// The character sequences behind a sequence of string slices.
pub open spec fn strs_view(v: Seq<&str>) -> Seq<Seq<char>> {
    v.map_values(|x: &str| x@)
}

/// Split `s` into the segments between occurrences of `c`.
pub fn split_str<'a>(s: &'a str, c: char) -> (v: Vec<&'a str>)
    ensures
        strs_view(v@) == spec_split(s@, c),
{
    let n = s.unicode_len();
    let mut v: Vec<&'a str> = Vec::new();
    let mut start: usize = 0;
    let mut i: usize = 0;
    proof {
        assert(s@.subrange(0, n as int) =~= s@);
        assert(strs_view(v@) + spec_split(s@, c) =~= spec_split(s@, c));
    }
    while i < n
        invariant
            n == s@.len(),
            0 <= start <= i <= n,
            forall|j: int| start <= j < i ==> s@[j] != c,
            spec_split(s@, c) == strs_view(v@) + spec_split(
                s@.subrange(start as int, n as int),
                c,
            ),
        decreases n - i,
    {
        if s.get_char(i) == c {
            let ghost tail = s@.subrange(start as int, n as int);
            let ghost v0 = v@;
            let seg = s.substring_char(start, i);
            v.push(seg);
            proof {
                let x = s@.subrange(start as int, i as int);
                let y = s@.subrange(i as int + 1, n as int);
                assert forall|j: int| 0 <= j < x.len() implies x[j] != c by {
                    assert(x[j] == s@[j + start]);
                }
                assert(!has_char(x, c));
                assert(tail =~= x + seq![c] + y);
                lemma_split_step(x, y, c);
                assert(strs_view(v@) =~= strs_view(v0).push(x));
                assert(strs_view(v0) + spec_split(tail, c) =~= strs_view(v@) + spec_split(y, c));
            }
            start = i + 1;
        }
        i = i + 1;
    }
    let ghost v0 = v@;
    let last = s.substring_char(start, n);
    v.push(last);
    proof {
        let x = s@.subrange(start as int, n as int);
        assert forall|j: int| 0 <= j < x.len() implies x[j] != c by {
            assert(x[j] == s@[j + start]);
        }
        assert(!has_char(x, c));
        lemma_split_whole(x, c);
        assert(strs_view(v@) =~= strs_view(v0).push(x));
        assert(strs_view(v@) =~= strs_view(v0) + spec_split(x, c));
    }
    v
}

/// Split `s` into its lines.
pub fn split_lines<'a>(s: &'a str) -> (v: Vec<&'a str>)
    ensures
        strs_view(v@) == spec_lines(s@),
{
    let n = s.unicode_len();
    let mut v: Vec<&'a str> = Vec::new();
    let mut start: usize = 0;
    let mut i: usize = 0;
    proof {
        assert(s@.subrange(0, n as int) =~= s@);
        assert(strs_view(v@) + spec_lines(s@) =~= spec_lines(s@));
    }
    while i < n
        invariant
            n == s@.len(),
            0 <= start <= i <= n,
            forall|j: int| start <= j < i ==> s@[j] != '\n',
            spec_lines(s@) == strs_view(v@) + spec_lines(s@.subrange(start as int, n as int)),
        decreases n - i,
    {
        if s.get_char(i) == '\n' {
            let ghost tail = s@.subrange(start as int, n as int);
            let ghost v0 = v@;
            let seg = s.substring_char(start, i);
            v.push(seg);
            proof {
                let x = s@.subrange(start as int, i as int);
                let y = s@.subrange(i as int + 1, n as int);
                assert forall|j: int| 0 <= j < x.len() implies x[j] != '\n' by {
                    assert(x[j] == s@[j + start]);
                }
                assert(!has_char(x, '\n'));
                assert(tail =~= x + seq!['\n'] + y);
                lemma_lines_step(x, y);
                assert(strs_view(v@) =~= strs_view(v0).push(x));
                assert(strs_view(v0) + spec_lines(tail) =~= strs_view(v@) + spec_lines(y));
            }
            start = i + 1;
        }
        i = i + 1;
    }
    if start < n {
        let ghost v0 = v@;
        let last = s.substring_char(start, n);
        v.push(last);
        proof {
            let x = s@.subrange(start as int, n as int);
            assert forall|j: int| 0 <= j < x.len() implies x[j] != '\n' by {
                assert(x[j] == s@[j + start]);
            }
            assert(!has_char(x, '\n'));
            lemma_lines_whole(x);
            assert(strs_view(v@) =~= strs_view(v0).push(x));
            assert(strs_view(v@) =~= strs_view(v0) + spec_lines(x));
        }
    } else {
        proof {
            assert(s@.subrange(start as int, n as int) =~= Seq::<char>::empty());
            assert(strs_view(v@) + spec_lines(Seq::<char>::empty()) =~= strs_view(v@));
        }
    }
    v
}

/// Whether `c` is one of the recognized whitespace characters.
pub fn is_ws_char(c: char) -> (b: bool)
    ensures
        b == is_ws(c),
{
    c == '\t' || c == '\n' || c == '\u{b}' || c == '\u{c}' || c == '\r' || c == ' '
        || c == '\u{85}' || c == '\u{a0}' || c == '\u{1680}' || c == '\u{2000}' || c == '\u{2001}'
        || c == '\u{2002}' || c == '\u{2003}' || c == '\u{2004}' || c == '\u{2005}'
        || c == '\u{2006}' || c == '\u{2007}' || c == '\u{2008}' || c == '\u{2009}'
        || c == '\u{200a}' || c == '\u{2028}' || c == '\u{2029}' || c == '\u{202f}'
        || c == '\u{205f}' || c == '\u{3000}'
}

/// Remove leading and trailing whitespace from `s`.
pub fn trim(s: &str) -> (r: &str)
    ensures
        r@ == spec_trim(s@),
{
    let n = s.unicode_len();
    let mut a: usize = 0;
    while a < n && is_ws_char(s.get_char(a))
        invariant
            n == s@.len(),
            0 <= a <= n,
            forall|j: int| 0 <= j < a ==> is_ws(s@[j]),
        decreases n - a,
    {
        a = a + 1;
    }
    if a == n {
        proof {
            lemma_trim_all_ws(s@);
        }
        let r = s.substring_char(n, n);
        proof {
            assert(r@ =~= spec_trim(s@));
        }
        return r;
    }
    let mut b: usize = n;
    while b > a && is_ws_char(s.get_char(b - 1))
        invariant
            n == s@.len(),
            0 <= a <= b <= n,
            a < n,
            !is_ws(s@[a as int]),
            forall|j: int| b <= j < n ==> is_ws(s@[j]),
        decreases b,
    {
        b = b - 1;
    }
    let r = s.substring_char(a, b);
    proof {
        assert(b > a);
        assert(!is_ws(s@[b - 1]));
        lemma_trim_front_at(s@, a as int);
        let t = trim_front(s@);
        assert forall|j: int| b - a <= j < t.len() implies is_ws(t[j]) by {
            assert(t[j] == s@[j + a]);
        }
        assert(t[b - a - 1] == s@[b - 1]);
        lemma_trim_back_at(t, b - a);
        assert(r@ =~= spec_trim(s@));
    }
    r
}

} // verus!
