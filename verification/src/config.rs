//! Parser for the configuration format: one entry per non-blank line,
//! `"<markdown-path>" = [ "<target-path>", ... ]`, with whitespace around
//! tokens ignored.

use vstd::prelude::*;

use crate::text::all_ws;
use crate::text::chomp_cr;
use crate::text::chomp_lines;
use crate::text::count_char;
use crate::text::find_char;
use crate::text::has_char;
use crate::text::is_ws;
use crate::text::lemma_split_step;
use crate::text::lemma_split_whole;
use crate::text::lemma_trim_surround;
use crate::text::lemma_count_split;
use crate::text::lemma_find_char;
use crate::text::lemma_find_char_is;
use crate::text::lemma_has_char_find;
use crate::text::spec_lines;
use crate::text::spec_split;
use crate::text::spec_trim;
use crate::text::split_lines;
use crate::text::split_str;
use crate::text::strs_view;
use crate::text::trim;

verus! {

/// Reason a configuration line was rejected.
#[derive(Clone, Copy, Debug, PartialEq, Eq, Structural)]
pub enum ParseError {
    /// The line holds no `=` separator, or more than one.
    MissingRhs,
    /// A string token does not begin and end with a double quote.
    ExpectedQuotes,
    /// An array token does not begin with `[` and end with `]`.
    ExpectedBrackets,
}

impl ParseError {
    /// A human-readable description of the error.
    pub fn message(&self) -> (m: &'static str)
        ensures
            *self is MissingRhs ==> m@ == "missing right-hand side"@,
            *self is ExpectedQuotes ==> m@ == "expecting string in quotes"@,
            *self is ExpectedBrackets ==> m@ == "expecting brackets"@,
    {
        match self {
            ParseError::MissingRhs => "missing right-hand side",
            ParseError::ExpectedQuotes => "expecting string in quotes",
            ParseError::ExpectedBrackets => "expecting brackets",
        }
    }
}

/// What parsing a string token yields: after trimming, the token must
/// begin and end with a double quote (so it must be at least two
/// characters long), and the result is everything between the quotes,
/// not unescaped.
pub open spec fn spec_parse_string(s: Seq<char>) -> Result<Seq<char>, ParseError> {
    let t = spec_trim(s);
    if t.len() >= 2 && t[0] == '"' && t[t.len() - 1] == '"' {
        Ok(t.subrange(1, t.len() - 1))
    } else {
        Err(ParseError::ExpectedQuotes)
    }
}

/// What parsing an array token yields: after trimming, the token must
/// begin with `[` and end with `]`, and the result is the raw interior
/// segments between commas, still unparsed and untrimmed.
pub open spec fn spec_parse_array(s: Seq<char>) -> Result<Seq<Seq<char>>, ParseError> {
    let t = spec_trim(s);
    if t.len() >= 2 && t[0] == '[' && t[t.len() - 1] == ']' {
        Ok(spec_split(t.subrange(1, t.len() - 1), ','))
    } else {
        Err(ParseError::ExpectedBrackets)
    }
}

/// Parse every segment as a string token; the first failure wins.
pub open spec fn spec_parse_strings(segs: Seq<Seq<char>>) -> Result<Seq<Seq<char>>, ParseError>
    decreases segs.len(),
{
    if segs.len() == 0 {
        Ok(Seq::empty())
    } else {
        match spec_parse_string(segs[0]) {
            Err(e) => Err(e),
            Ok(a) => match spec_parse_strings(segs.subrange(1, segs.len() as int)) {
                Err(e) => Err(e),
                Ok(rest) => Ok(seq![a] + rest),
            },
        }
    }
}

/// What parsing one configuration line yields: the line must hold
/// exactly one `=`; the text before it is a string token, the text after
/// it an array token whose elements are each string tokens.
pub open spec fn spec_parse_line(line: Seq<char>) -> Result<
    (Seq<char>, Seq<Seq<char>>),
    ParseError,
> {
    let i = find_char(line, '=');
    if i == line.len() {
        Err(ParseError::MissingRhs)
    } else if has_char(line.subrange(i + 1, line.len() as int), '=') {
        Err(ParseError::MissingRhs)
    } else {
        match spec_parse_string(line.subrange(0, i)) {
            Err(e) => Err(e),
            Ok(a) => match spec_parse_array(line.subrange(i + 1, line.len() as int)) {
                Err(e) => Err(e),
                Ok(segs) => match spec_parse_strings(segs) {
                    Err(e) => Err(e),
                    Ok(elems) => Ok((a, elems)),
                },
            },
        }
    }
}

/// Parse a sequence of configuration lines, skipping blank ones; the
/// first failure wins.
pub open spec fn spec_parse_config_lines(ls: Seq<Seq<char>>) -> Result<
    Seq<(Seq<char>, Seq<Seq<char>>)>,
    ParseError,
>
    decreases ls.len(),
{
    if ls.len() == 0 {
        Ok(Seq::empty())
    } else if ls[0].len() == 0 {
        spec_parse_config_lines(ls.subrange(1, ls.len() as int))
    } else {
        match spec_parse_line(ls[0]) {
            Err(e) => Err(e),
            Ok(p) => match spec_parse_config_lines(ls.subrange(1, ls.len() as int)) {
                Err(e) => Err(e),
                Ok(rest) => Ok(seq![p] + rest),
            },
        }
    }
}

/// What parsing a whole configuration text yields: its non-blank lines,
/// each parsed, in line order. A line ends at `\n`; one `\r` right
/// before it is dropped, so `\r\n` endings are accepted too.
pub open spec fn spec_parse_config(text: Seq<char>) -> Result<
    Seq<(Seq<char>, Seq<Seq<char>>)>,
    ParseError,
> {
    spec_parse_config_lines(chomp_lines(spec_lines(text)))
}

/// The character sequences behind a sequence of owned strings.
pub open spec fn strings_view(v: Seq<String>) -> Seq<Seq<char>> {
    v.map_values(|x: String| x@)
}

/// The character sequences behind a sequence of configuration entries.
pub open spec fn entries_view(v: Seq<(String, Vec<String>)>) -> Seq<(Seq<char>, Seq<Seq<char>>)> {
    v.map_values(|e: (String, Vec<String>)| (e.0@, strings_view(e.1@)))
}

/// Parse a string token: after surrounding whitespace is trimmed, the
/// token must begin and end with a double quote; the text between the
/// quotes is returned as is. A token that does not (including any token
/// shorter than two characters after trimming) is rejected.
pub fn parse_string<'a>(s: &'a str) -> (r: Result<&'a str, ParseError>)
    ensures
        ({
            let sr = spec_parse_string(s@);
            let t = spec_trim(s@);
            &&& (r is Ok <==> sr is Ok)
            &&& (r matches Ok(v) ==> sr matches Ok(sv) && v@ == sv)
            &&& (r matches Err(e) ==> sr matches Err(se) && e == se)
            &&& (r is Err <==> !(t.len() >= 2 && t[0] == '"' && t[t.len() - 1] == '"'))
            &&& (r is Err ==> r == Err::<&'a str, ParseError>(ParseError::ExpectedQuotes))
        }),
{
    let t = trim(s);
    let n = t.unicode_len();
    if n >= 2 && t.get_char(0) == '"' && t.get_char(n - 1) == '"' {
        let inner = t.substring_char(1, n - 1);
        Ok(inner)
    } else {
        Err(ParseError::ExpectedQuotes)
    }
}

/// Parse an array token: after surrounding whitespace is trimmed, the
/// token must begin with `[` and end with `]`; the interior is split on
/// commas and the raw segments are returned, untrimmed and unparsed.
pub fn parse_array<'a>(s: &'a str) -> (r: Result<Vec<&'a str>, ParseError>)
    ensures
        ({
            let sr = spec_parse_array(s@);
            let t = spec_trim(s@);
            &&& (r is Ok <==> sr is Ok)
            &&& (r matches Ok(v) ==> sr matches Ok(sv) && strs_view(v@) == sv)
            &&& (r matches Err(e) ==> sr matches Err(se) && e == se)
            &&& (r is Err <==> !(t.len() >= 2 && t[0] == '[' && t[t.len() - 1] == ']'))
            &&& (r is Err ==> r == Err::<Vec<&'a str>, ParseError>(ParseError::ExpectedBrackets))
        }),
{
    let t = trim(s);
    let n = t.unicode_len();
    if n >= 2 && t.get_char(0) == '[' && t.get_char(n - 1) == ']' {
        let inner = t.substring_char(1, n - 1);
        let segs = split_str(inner, ',');
        Ok(segs)
    } else {
        Err(ParseError::ExpectedBrackets)
    }
}

/// Parse one configuration line, `STRING = ARRAY`. The line must hold
/// exactly one `=` (with none, or two or more, it is rejected); the text
/// before it must be a string token and the text after it an array token
/// whose elements are each string tokens. The first offending token
/// decides the error.
pub fn parse_line<'a>(line: &'a str) -> (r: Result<(&'a str, Vec<&'a str>), ParseError>)
    ensures
        ({
            let sr = spec_parse_line(line@);
            &&& (r is Ok <==> sr is Ok)
            &&& (r matches Ok(p) ==> sr matches Ok(sp) && p.0@ == sp.0 && strs_view(p.1@)
                == sp.1)
            &&& (r matches Err(e) ==> sr matches Err(se) && e == se)
            &&& (r == Err::<(&'a str, Vec<&'a str>), ParseError>(ParseError::MissingRhs) <==> count_char(
                line@,
                '=',
            ) != 1)
        }),
{
    let n = line.unicode_len();
    let mut i: usize = 0;
    let mut eq: usize = 0;
    let mut found = false;
    while i < n
        invariant
            n == line@.len(),
            0 <= i <= n,
            !found ==> forall|j: int| 0 <= j < i ==> line@[j] != '=',
            found ==> 0 <= eq < i && line@[eq as int] == '=' && (forall|j: int|
                0 <= j < i && j != eq ==> line@[j] != '='),
        decreases n - i,
    {
        if line.get_char(i) == '=' {
            if found {
                proof {
                    lemma_find_char_is(line@, '=', eq as int);
                    let rest = line@.subrange(eq as int + 1, n as int);
                    assert(rest[i - eq - 1] == '=');
                    assert(has_char(rest, '='));
                    lemma_find_char(rest, '=');
                    lemma_count_split(line@, '=');
                    lemma_count_split(rest, '=');
                    lemma_has_char_find(rest, '=');
                }
                return Err(ParseError::MissingRhs);
            }
            eq = i;
            found = true;
        }
        i = i + 1;
    }
    if !found {
        proof {
            lemma_find_char_is(line@, '=', n as int);
            lemma_count_split(line@, '=');
        }
        return Err(ParseError::MissingRhs);
    }
    proof {
        lemma_find_char_is(line@, '=', eq as int);
        let rest = line@.subrange(eq as int + 1, n as int);
        assert forall|j: int| 0 <= j < rest.len() implies rest[j] != '=' by {
            assert(rest[j] == line@[j + eq + 1]);
        }
        assert(!has_char(rest, '='));
        lemma_find_char(rest, '=');
        lemma_count_split(line@, '=');
        lemma_count_split(rest, '=');
        lemma_has_char_find(rest, '=');
    }
    let first = line.substring_char(0, eq);
    let second = line.substring_char(eq + 1, n);
    let a = match parse_string(first) {
        Ok(a) => a,
        Err(e) => {
            return Err(e);
        },
    };
    let segs = match parse_array(second) {
        Ok(segs) => segs,
        Err(e) => {
            return Err(e);
        },
    };
    let ghost sv = strs_view(segs@);
    let mut elems: Vec<&'a str> = Vec::new();
    let mut k: usize = 0;
    proof {
        assert(sv.subrange(0, sv.len() as int) =~= sv);
        assert(strs_view(elems@) + Seq::<Seq<char>>::empty() =~= strs_view(elems@));
    }
    while k < segs.len()
        invariant
            k <= segs.len(),
            sv == strs_view(segs@),
            n == line@.len(),
            0 <= eq < n,
            find_char(line@, '=') == eq as int,
            !has_char(line@.subrange(eq as int + 1, n as int), '='),
            count_char(line@, '=') == 1,
            spec_parse_string(line@.subrange(0, eq as int)) == Ok::<Seq<char>, ParseError>(a@),
            spec_parse_array(line@.subrange(eq as int + 1, n as int)) == Ok::<
                Seq<Seq<char>>,
                ParseError,
            >(sv),
            spec_parse_strings(sv) == (match spec_parse_strings(
                sv.subrange(k as int, sv.len() as int),
            ) {
                Ok(rest) => Ok::<_, ParseError>(strs_view(elems@) + rest),
                Err(e) => Err(e),
            }),
        decreases segs.len() - k,
    {
        let seg = segs[k];
        let ghost elems0 = elems@;
        let ghost sub_k = sv.subrange(k as int, sv.len() as int);
        proof {
            assert(sub_k[0] == sv[k as int]);
            assert(sub_k.subrange(1, sub_k.len() as int) =~= sv.subrange(
                k as int + 1,
                sv.len() as int,
            ));
        }
        let val = match parse_string(seg) {
            Ok(val) => val,
            Err(e) => {
                proof {
                    assert(sv[k as int] == seg@);
                    assert(spec_parse_string(sub_k[0]) == Err::<Seq<char>, ParseError>(e));
                    assert(spec_parse_strings(sub_k) == Err::<Seq<Seq<char>>, ParseError>(e));
                    assert(spec_parse_strings(sv) == Err::<Seq<Seq<char>>, ParseError>(e));
                }
                return Err(e);
            },
        };
        elems.push(val);
        proof {
            assert(strs_view(elems@) =~= strs_view(elems0).push(val@));
            match spec_parse_strings(sv.subrange(k as int + 1, sv.len() as int)) {
                Ok(rest) => {
                    assert(strs_view(elems0) + (seq![val@] + rest) =~= strs_view(elems@) + rest);
                },
                Err(_) => {},
            }
        }
        k = k + 1;
    }
    proof {
        assert(sv.subrange(sv.len() as int, sv.len() as int) =~= Seq::<Seq<char>>::empty());
        assert(strs_view(elems@) + Seq::<Seq<char>>::empty() =~= strs_view(elems@));
    }
    Ok((a, elems))
}

/// A quoted token: the text `a` between two double quotes.
pub open spec fn quoted(a: Seq<char>) -> Seq<char> {
    seq!['"'] + a + seq!['"']
}

proof fn lemma_ws_no_char(w: Seq<char>, c: char)
    requires
        all_ws(w),
        !is_ws(c),
    ensures
        !has_char(w, c),
{
    assert forall|j: int| 0 <= j < w.len() implies w[j] != c by {
        assert(is_ws(w[j]));
    }
}

proof fn lemma_no_char_concat(x: Seq<char>, y: Seq<char>, c: char)
    requires
        !has_char(x, c),
        !has_char(y, c),
    ensures
        !has_char(x + y, c),
{
    assert forall|j: int| 0 <= j < (x + y).len() implies (x + y)[j] != c by {
        if j < x.len() {
            assert((x + y)[j] == x[j]);
            assert(!(0 <= j < x.len() && x[j] == c));
        } else {
            assert((x + y)[j] == y[j - x.len()]);
            assert(!(0 <= j - x.len() < y.len() && y[j - x.len()] == c));
        }
    }
}

proof fn lemma_single_no_char(d: char, c: char)
    requires
        d != c,
    ensures
        !has_char(seq![d], c),
{
    assert forall|j: int| 0 <= j < seq![d].len() implies seq![d][j] != c by {
        assert(seq![d][j] == d);
    }
}

/// A string token that is exactly a quoted text with whitespace around
/// it parses to that text.
pub proof fn lemma_parse_string_quoted(w1: Seq<char>, a: Seq<char>, w2: Seq<char>)
    requires
        all_ws(w1),
        all_ws(w2),
    ensures
        spec_parse_string(w1 + quoted(a) + w2) == Ok::<Seq<char>, ParseError>(a),
{
    let x = quoted(a);
    assert(x[0] == '"');
    assert(x[x.len() - 1] == '"');
    lemma_trim_surround(w1, x, w2);
    assert(x.subrange(1, x.len() - 1) =~= a);
}

proof fn lemma_quoted_no_char(a: Seq<char>, c: char)
    requires
        !has_char(a, c),
        c != '"',
    ensures
        !has_char(quoted(a), c),
{
    lemma_single_no_char('"', c);
    lemma_no_char_concat(seq!['"'], a, c);
    lemma_no_char_concat(seq!['"'] + a, seq!['"'], c);
    assert(quoted(a) == (seq!['"'] + a) + seq!['"']);
}

/// For every well-formed configuration line — a quoted text, one `=`,
/// and a bracketed array of two quoted texts, with any whitespace around
/// each token — parsing yields exactly the pair of the first text and
/// the two array texts. The first text may not contain `=`; the array
/// texts may not contain `=` or `,`.
pub proof fn lemma_parse_line_well_formed(
    a: Seq<char>,
    b: Seq<char>,
    c: Seq<char>,
    w1: Seq<char>,
    w2: Seq<char>,
    w3: Seq<char>,
    w4: Seq<char>,
    w5: Seq<char>,
    w6: Seq<char>,
    w7: Seq<char>,
    w8: Seq<char>,
)
    requires
        all_ws(w1),
        all_ws(w2),
        all_ws(w3),
        all_ws(w4),
        all_ws(w5),
        all_ws(w6),
        all_ws(w7),
        all_ws(w8),
        !has_char(a, '='),
        !has_char(b, '='),
        !has_char(b, ','),
        !has_char(c, '='),
        !has_char(c, ','),
    ensures
        ({
            let first = w1 + quoted(a) + w2;
            let seg_b = w4 + quoted(b) + w5;
            let seg_c = w6 + quoted(c) + w7;
            let array = seq!['['] + (seg_b + seq![','] + seg_c) + seq![']'];
            let second = w3 + array + w8;
            spec_parse_line(first + seq!['='] + second) == Ok::<
                (Seq<char>, Seq<Seq<char>>),
                ParseError,
            >((a, seq![b, c]))
        }),
{
    let first = w1 + quoted(a) + w2;
    let seg_b = w4 + quoted(b) + w5;
    let seg_c = w6 + quoted(c) + w7;
    let inner = seg_b + seq![','] + seg_c;
    let array = seq!['['] + inner + seq![']'];
    let second = w3 + array + w8;
    let line = first + seq!['='] + second;

    // Neither side of the separator holds another `=`.
    lemma_ws_no_char(w1, '=');
    lemma_ws_no_char(w2, '=');
    lemma_ws_no_char(w3, '=');
    lemma_ws_no_char(w4, '=');
    lemma_ws_no_char(w5, '=');
    lemma_ws_no_char(w6, '=');
    lemma_ws_no_char(w7, '=');
    lemma_ws_no_char(w8, '=');
    lemma_quoted_no_char(a, '=');
    lemma_quoted_no_char(b, '=');
    lemma_quoted_no_char(c, '=');
    lemma_no_char_concat(w1, quoted(a), '=');
    lemma_no_char_concat(w1 + quoted(a), w2, '=');
    assert(first == (w1 + quoted(a)) + w2);
    lemma_no_char_concat(w4, quoted(b), '=');
    lemma_no_char_concat(w4 + quoted(b), w5, '=');
    assert(seg_b == (w4 + quoted(b)) + w5);
    lemma_no_char_concat(w6, quoted(c), '=');
    lemma_no_char_concat(w6 + quoted(c), w7, '=');
    assert(seg_c == (w6 + quoted(c)) + w7);
    lemma_single_no_char(',', '=');
    lemma_no_char_concat(seg_b, seq![','], '=');
    lemma_no_char_concat(seg_b + seq![','], seg_c, '=');
    assert(inner == (seg_b + seq![',']) + seg_c);
    lemma_single_no_char('[', '=');
    lemma_single_no_char(']', '=');
    lemma_no_char_concat(seq!['['], inner, '=');
    lemma_no_char_concat(seq!['['] + inner, seq![']'], '=');
    assert(array == (seq!['['] + inner) + seq![']']);
    lemma_no_char_concat(w3, array, '=');
    lemma_no_char_concat(w3 + array, w8, '=');
    assert(second == (w3 + array) + w8);

    // The one `=` stands right after the first token.
    assert forall|j: int| 0 <= j < first.len() implies line[j] != '=' by {
        assert(line[j] == first[j]);
        assert(!(0 <= j < first.len() && first[j] == '='));
    }
    assert(line[first.len() as int] == '=');
    lemma_find_char_is(line, '=', first.len() as int);
    let rest = line.subrange(first.len() as int + 1, line.len() as int);
    assert(rest =~= second);

    // The left token is the quoted text `a`.
    assert(line.subrange(0, first.len() as int) =~= first);
    lemma_parse_string_quoted(w1, a, w2);

    // The right token is the bracketed array.
    assert(array[0] == '[');
    assert(array[array.len() - 1] == ']');
    lemma_trim_surround(w3, array, w8);
    assert(spec_trim(second) == array);
    assert(array.subrange(1, array.len() - 1) =~= inner);

    // The interior splits into the two quoted segments.
    lemma_ws_no_char(w4, ',');
    lemma_ws_no_char(w5, ',');
    lemma_ws_no_char(w6, ',');
    lemma_ws_no_char(w7, ',');
    lemma_quoted_no_char(b, ',');
    lemma_quoted_no_char(c, ',');
    lemma_no_char_concat(w4, quoted(b), ',');
    lemma_no_char_concat(w4 + quoted(b), w5, ',');
    lemma_no_char_concat(w6, quoted(c), ',');
    lemma_no_char_concat(w6 + quoted(c), w7, ',');
    lemma_split_step(seg_b, seg_c, ',');
    lemma_split_whole(seg_c, ',');
    assert(spec_split(inner, ',') =~= seq![seg_b, seg_c]);
    assert(spec_parse_array(second) == Ok::<Seq<Seq<char>>, ParseError>(seq![seg_b, seg_c]));

    // Each segment is a quoted text.
    lemma_parse_string_quoted(w4, b, w5);
    lemma_parse_string_quoted(w6, c, w7);
    let segs = seq![seg_b, seg_c];
    assert(segs[0] == seg_b);
    assert(segs.subrange(1, 2) =~= seq![seg_c]);
    assert(seq![seg_c].subrange(1, 1) =~= Seq::<Seq<char>>::empty());
    assert(spec_parse_strings(Seq::<Seq<char>>::empty()) == Ok::<
        Seq<Seq<char>>,
        ParseError,
    >(Seq::empty()));
    assert(spec_parse_strings(seq![seg_c]) == Ok::<Seq<Seq<char>>, ParseError>(
        seq![c] + Seq::<Seq<char>>::empty(),
    ));
    assert(seq![c] + Seq::<Seq<char>>::empty() =~= seq![c]);
    assert(spec_parse_strings(segs) == Ok::<Seq<Seq<char>>, ParseError>(seq![b] + seq![c]));
    assert(seq![b] + seq![c] =~= seq![b, c]);
}

/// Copy borrowed string slices into owned strings, keeping the contents.
fn own_strs(v: &Vec<&str>) -> (r: Vec<String>)
    ensures
        strings_view(r@) == strs_view(v@),
{
    let mut r: Vec<String> = Vec::new();
    let mut k: usize = 0;
    proof {
        assert(strings_view(r@) =~= strs_view(v@.subrange(0, 0)));
    }
    while k < v.len()
        invariant
            k <= v.len(),
            strings_view(r@) == strs_view(v@.subrange(0, k as int)),
        decreases v.len() - k,
    {
        let ghost r0 = r@;
        r.push(v[k].to_owned());
        proof {
            assert(strings_view(r@) =~= strings_view(r0).push(v@[k as int]@));
            assert(strs_view(v@.subrange(0, k as int + 1)) =~= strs_view(
                v@.subrange(0, k as int),
            ).push(v@[k as int]@));
        }
        k = k + 1;
    }
    proof {
        assert(v@.subrange(0, v.len() as int) =~= v@);
    }
    r
}

/// Parse a whole configuration text: one entry per non-blank line, in
/// line order, each entry an owned pair of the Markdown path and the
/// target paths. A line ends at `\n`, and one `\r` right before it is
/// dropped, so `\r\n` endings read the same. The first malformed line
/// decides the error.
pub fn parse_config(text: &str) -> (r: Result<Vec<(String, Vec<String>)>, ParseError>)
    ensures
        ({
            let sr = spec_parse_config(text@);
            &&& (r is Ok <==> sr is Ok)
            &&& (r matches Ok(v) ==> sr matches Ok(sv) && entries_view(v@) == sv)
            &&& (r matches Err(e) ==> sr matches Err(se) && e == se)
        }),
{
    let lines = split_lines(text);
    let ghost lv = chomp_lines(strs_view(lines@));
    let mut entries: Vec<(String, Vec<String>)> = Vec::new();
    let mut k: usize = 0;
    proof {
        assert(lv.subrange(0, lv.len() as int) =~= lv);
        assert(entries_view(entries@) + Seq::<(Seq<char>, Seq<Seq<char>>)>::empty()
            =~= entries_view(entries@));
    }
    while k < lines.len()
        invariant
            k <= lines.len(),
            lv == chomp_lines(strs_view(lines@)),
            lv == chomp_lines(spec_lines(text@)),
            spec_parse_config(text@) == (match spec_parse_config_lines(
                lv.subrange(k as int, lv.len() as int),
            ) {
                Ok(rest) => Ok::<_, ParseError>(entries_view(entries@) + rest),
                Err(e) => Err(e),
            }),
        decreases lines.len() - k,
    {
        let line_raw = lines[k];
        let nraw = line_raw.unicode_len();
        let line = if nraw > 0 && line_raw.get_char(nraw - 1) == '\r' {
            line_raw.substring_char(0, nraw - 1)
        } else {
            line_raw
        };
        let ghost sub_k = lv.subrange(k as int, lv.len() as int);
        proof {
            assert(line@ == chomp_cr(line_raw@));
            assert(sub_k[0] == lv[k as int]);
            assert(lv[k as int] == line@);
            assert(sub_k.subrange(1, sub_k.len() as int) =~= lv.subrange(
                k as int + 1,
                lv.len() as int,
            ));
        }
        if line.unicode_len() > 0 {
            match parse_line(line) {
                Ok(p) => {
                    let (md, targets) = p;
                    let md_owned = md.to_owned();
                    let targets_owned = own_strs(&targets);
                    let ghost entries0 = entries@;
                    entries.push((md_owned, targets_owned));
                    proof {
                        match spec_parse_line(line@) {
                            Ok(sp) => {
                                assert(entries_view(entries@) =~= entries_view(entries0).push(
                                    sp,
                                ));
                                match spec_parse_config_lines(
                                    lv.subrange(k as int + 1, lv.len() as int),
                                ) {
                                    Ok(rest) => {
                                        assert(entries_view(entries0) + (seq![sp] + rest)
                                            =~= entries_view(entries@) + rest);
                                    },
                                    Err(_) => {},
                                }
                            },
                            Err(_) => {},
                        }
                    }
                },
                Err(e) => {
                    return Err(e);
                },
            }
        }
        k = k + 1;
    }
    proof {
        assert(lv.subrange(lv.len() as int, lv.len() as int) =~= Seq::<Seq<char>>::empty());
        assert(entries_view(entries@) + Seq::<(Seq<char>, Seq<Seq<char>>)>::empty()
            =~= entries_view(entries@));
    }
    Ok(entries)
}

} // verus!
