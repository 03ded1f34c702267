//! Line-based merge of a Markdown document into a target file's lines:
//! every line of the trimmed Markdown document becomes a documentation
//! comment line, and every line of the target that already begins with
//! the documentation marker is dropped. Lines are read as a buffered
//! line reader reads them: split at `\n`, with one `\r` right before it
//! dropped, so `\r\n`-ended lines are normalized to `\n` in the output.

use vstd::prelude::*;

use crate::text::chomp_cr;
use crate::text::chomp_lines;
use crate::text::has_char;
use crate::text::lemma_lines_no_newline;
use crate::text::lemma_lines_step;
use crate::text::spec_lines;
use crate::text::spec_trim;
use crate::text::split_lines;
use crate::text::strs_view;
use crate::text::trim;

verus! {

/// The fixed prefix that identifies a generated documentation line.
pub open spec fn marker() -> Seq<char> {
    seq!['/', '/', '!']
}

/// The marker followed by one space, as prepended to each Markdown line.
pub open spec fn marker_space() -> Seq<char> {
    seq!['/', '/', '!', ' ']
}

/// Whether a line begins with the documentation marker. The match is
/// against the raw line start: no leading whitespace is tolerated.
pub open spec fn starts_with_marker(line: Seq<char>) -> bool {
    line.len() >= 3 && line[0] == '/' && line[1] == '/' && line[2] == '!'
}

/// The lines glued back into one text, each followed by one newline.
pub open spec fn spec_glue(ls: Seq<Seq<char>>) -> Seq<char>
    decreases ls.len(),
{
    if ls.len() == 0 {
        Seq::empty()
    } else {
        ls[0] + seq!['\n'] + spec_glue(ls.subrange(1, ls.len() as int))
    }
}

/// Each line turned into a documentation comment line: the marker, one
/// space, then the line's exact content.
pub open spec fn spec_comment_lines(ls: Seq<Seq<char>>) -> Seq<Seq<char>> {
    ls.map_values(|l: Seq<char>| marker_space() + l)
}

/// The lines that survive the merge: those that do not begin with the
/// marker, in their original order.
pub open spec fn spec_keep_lines(ls: Seq<Seq<char>>) -> Seq<Seq<char>>
    decreases ls.len(),
{
    if ls.len() == 0 {
        Seq::empty()
    } else if starts_with_marker(ls[0]) {
        spec_keep_lines(ls.subrange(1, ls.len() as int))
    } else {
        seq![ls[0]] + spec_keep_lines(ls.subrange(1, ls.len() as int))
    }
}

/// The merged contents: every line of the trimmed Markdown document as a
/// documentation comment line, then every line of the target that does
/// not begin with the marker, each line followed by one newline. A line
/// ends at `\n`, and one `\r` right before it is dropped.
pub open spec fn spec_merge(md: Seq<char>, target: Seq<char>) -> Seq<char> {
    spec_glue(
        spec_comment_lines(chomp_lines(spec_lines(spec_trim(md)))) + spec_keep_lines(
            chomp_lines(spec_lines(target)),
        ),
    )
}

/// No line of `ls` ends with a carriage return.
pub open spec fn no_line_ends_cr(ls: Seq<Seq<char>>) -> bool {
    forall|i: int|
        0 <= i < ls.len() ==> ((#[trigger] ls[i]).len() == 0 || ls[i][ls[i].len() - 1] != '\r')
}

proof fn lemma_chomp_lines_concat(a: Seq<Seq<char>>, b: Seq<Seq<char>>)
    ensures
        chomp_lines(a + b) == chomp_lines(a) + chomp_lines(b),
{
    assert forall|i: int|
        0 <= i < (a + b).len() implies #[trigger] chomp_lines(a + b)[i] == (chomp_lines(a)
        + chomp_lines(b))[i] by {
        if i < a.len() {
            assert((a + b)[i] == a[i]);
            assert(chomp_lines(a)[i] == chomp_cr(a[i]));
        } else {
            assert((a + b)[i] == b[i - a.len()]);
            assert(chomp_lines(b)[i - a.len()] == chomp_cr(b[i - a.len()]));
        }
    }
    assert(chomp_lines(a + b) =~= chomp_lines(a) + chomp_lines(b));
}

proof fn lemma_chomp_lines_no_newline(ls: Seq<Seq<char>>)
    requires
        forall|i: int| 0 <= i < ls.len() ==> !has_char(#[trigger] ls[i], '\n'),
    ensures
        forall|i: int|
            0 <= i < chomp_lines(ls).len() ==> !has_char(#[trigger] chomp_lines(ls)[i], '\n'),
{
    assert forall|i: int| 0 <= i < chomp_lines(ls).len() implies !has_char(
        #[trigger] chomp_lines(ls)[i],
        '\n',
    ) by {
        let l = ls[i];
        assert(chomp_lines(ls)[i] == chomp_cr(l));
        assert(!has_char(l, '\n'));
        assert forall|j: int| 0 <= j < chomp_cr(l).len() implies chomp_cr(l)[j] != '\n' by {
            assert(chomp_cr(l)[j] == l[j]);
            assert(!(0 <= j < l.len() && l[j] == '\n'));
        }
    }
}

proof fn lemma_glue_concat(a: Seq<Seq<char>>, b: Seq<Seq<char>>)
    ensures
        spec_glue(a + b) == spec_glue(a) + spec_glue(b),
    decreases a.len(),
{
    if a.len() == 0 {
        assert(a + b =~= b);
        assert(spec_glue(a) + spec_glue(b) =~= spec_glue(b));
    } else {
        let a1 = a.subrange(1, a.len() as int);
        assert((a + b).subrange(1, (a + b).len() as int) =~= a1 + b);
        lemma_glue_concat(a1, b);
        assert((a + b)[0] == a[0]);
        assert(a[0] + seq!['\n'] + (spec_glue(a1) + spec_glue(b)) =~= (a[0] + seq!['\n']
            + spec_glue(a1)) + spec_glue(b));
    }
}

proof fn lemma_glue_push(ls: Seq<Seq<char>>, l: Seq<char>)
    ensures
        spec_glue(ls.push(l)) == spec_glue(ls) + l + seq!['\n'],
{
    assert(ls.push(l) =~= ls + seq![l]);
    lemma_glue_concat(ls, seq![l]);
    assert(seq![l].subrange(1, 1) =~= Seq::<Seq<char>>::empty());
    assert(spec_glue(Seq::<Seq<char>>::empty()) == Seq::<char>::empty());
    assert(spec_glue(seq![l]) == l + seq!['\n'] + Seq::<char>::empty());
    assert(spec_glue(ls) + (l + seq!['\n'] + Seq::<char>::empty()) =~= spec_glue(ls) + l
        + seq!['\n']);
}

proof fn lemma_keep_concat(a: Seq<Seq<char>>, b: Seq<Seq<char>>)
    ensures
        spec_keep_lines(a + b) == spec_keep_lines(a) + spec_keep_lines(b),
    decreases a.len(),
{
    if a.len() == 0 {
        assert(a + b =~= b);
        assert(spec_keep_lines(a) + spec_keep_lines(b) =~= spec_keep_lines(b));
    } else {
        let a1 = a.subrange(1, a.len() as int);
        assert((a + b).subrange(1, (a + b).len() as int) =~= a1 + b);
        lemma_keep_concat(a1, b);
        assert((a + b)[0] == a[0]);
        if !starts_with_marker(a[0]) {
            assert(seq![a[0]] + (spec_keep_lines(a1) + spec_keep_lines(b)) =~= (seq![a[0]]
                + spec_keep_lines(a1)) + spec_keep_lines(b));
        }
    }
}

proof fn lemma_keep_push(ls: Seq<Seq<char>>, l: Seq<char>)
    ensures
        !starts_with_marker(l) ==> spec_keep_lines(ls.push(l)) == spec_keep_lines(ls).push(l),
        starts_with_marker(l) ==> spec_keep_lines(ls.push(l)) == spec_keep_lines(ls),
{
    assert(ls.push(l) =~= ls + seq![l]);
    lemma_keep_concat(ls, seq![l]);
    assert(seq![l].subrange(1, 1) =~= Seq::<Seq<char>>::empty());
    assert(spec_keep_lines(Seq::<Seq<char>>::empty()) == Seq::<Seq<char>>::empty());
    if !starts_with_marker(l) {
        assert(spec_keep_lines(seq![l]) == seq![l] + Seq::<Seq<char>>::empty());
        assert(spec_keep_lines(ls) + (seq![l] + Seq::<Seq<char>>::empty()) =~= spec_keep_lines(
            ls,
        ).push(l));
    } else {
        assert(spec_keep_lines(ls) + Seq::<Seq<char>>::empty() =~= spec_keep_lines(ls));
    }
}

proof fn lemma_keep_all_marker(ls: Seq<Seq<char>>)
    requires
        forall|i: int| 0 <= i < ls.len() ==> starts_with_marker(#[trigger] ls[i]),
    ensures
        spec_keep_lines(ls) == Seq::<Seq<char>>::empty(),
    decreases ls.len(),
{
    if ls.len() > 0 {
        let t = ls.subrange(1, ls.len() as int);
        assert forall|i: int| 0 <= i < t.len() implies starts_with_marker(#[trigger] t[i]) by {
            assert(t[i] == ls[i + 1]);
        }
        lemma_keep_all_marker(t);
    }
}

proof fn lemma_keep_no_marker(ls: Seq<Seq<char>>)
    requires
        forall|i: int| 0 <= i < ls.len() ==> !starts_with_marker(#[trigger] ls[i]),
    ensures
        spec_keep_lines(ls) == ls,
    decreases ls.len(),
{
    if ls.len() > 0 {
        let t = ls.subrange(1, ls.len() as int);
        assert forall|i: int| 0 <= i < t.len() implies !starts_with_marker(#[trigger] t[i]) by {
            assert(t[i] == ls[i + 1]);
        }
        lemma_keep_no_marker(t);
        assert(seq![ls[0]] + t =~= ls);
    }
}

proof fn lemma_keep_facts(ls: Seq<Seq<char>>)
    ensures
        forall|i: int|
            0 <= i < spec_keep_lines(ls).len() ==> !starts_with_marker(
                #[trigger] spec_keep_lines(ls)[i],
            ),
        (forall|i: int| 0 <= i < ls.len() ==> !has_char(#[trigger] ls[i], '\n')) ==> (forall|
            i: int,
        |
            0 <= i < spec_keep_lines(ls).len() ==> !has_char(
                #[trigger] spec_keep_lines(ls)[i],
                '\n',
            )),
    decreases ls.len(),
{
    if ls.len() > 0 {
        let t = ls.subrange(1, ls.len() as int);
        lemma_keep_facts(t);
        assert forall|i: int| 0 <= i < t.len() implies t[i] == ls[i + 1] by {}
        if !starts_with_marker(ls[0]) {
            let k = spec_keep_lines(ls);
            assert(k == seq![ls[0]] + spec_keep_lines(t));
            assert forall|i: int| 0 <= i < k.len() implies !starts_with_marker(
                #[trigger] k[i],
            ) by {
                if i > 0 {
                    assert(k[i] == spec_keep_lines(t)[i - 1]);
                }
            }
            if forall|i: int| 0 <= i < ls.len() ==> !has_char(#[trigger] ls[i], '\n') {
                assert forall|i: int| 0 <= i < k.len() implies !has_char(
                    #[trigger] k[i],
                    '\n',
                ) by {
                    if i > 0 {
                        assert(k[i] == spec_keep_lines(t)[i - 1]);
                    } else {
                        assert(k[0] == ls[0]);
                    }
                }
            }
        }
    }
}

proof fn lemma_comment_facts(ls: Seq<Seq<char>>)
    ensures
        forall|i: int|
            0 <= i < spec_comment_lines(ls).len() ==> starts_with_marker(
                #[trigger] spec_comment_lines(ls)[i],
            ),
        (forall|i: int| 0 <= i < ls.len() ==> !has_char(#[trigger] ls[i], '\n')) ==> (forall|
            i: int,
        |
            0 <= i < spec_comment_lines(ls).len() ==> !has_char(
                #[trigger] spec_comment_lines(ls)[i],
                '\n',
            )),
{
    let cl = spec_comment_lines(ls);
    assert forall|i: int| 0 <= i < cl.len() implies starts_with_marker(#[trigger] cl[i]) by {
        assert(cl[i] == marker_space() + ls[i]);
        assert(cl[i][0] == '/');
        assert(cl[i][1] == '/');
        assert(cl[i][2] == '!');
    }
    if forall|i: int| 0 <= i < ls.len() ==> !has_char(#[trigger] ls[i], '\n') {
        assert forall|i: int| 0 <= i < cl.len() implies !has_char(#[trigger] cl[i], '\n') by {
            assert(cl[i] == marker_space() + ls[i]);
            assert(!has_char(ls[i], '\n'));
            assert forall|j: int| 0 <= j < cl[i].len() implies cl[i][j] != '\n' by {
                if j >= 4 {
                    assert(cl[i][j] == ls[i][j - 4]);
                    assert(!(0 <= j - 4 < ls[i].len() && ls[i][j - 4] == '\n'));
                }
            }
        }
    }
}

proof fn lemma_lines_glue(ls: Seq<Seq<char>>)
    requires
        forall|i: int| 0 <= i < ls.len() ==> !has_char(#[trigger] ls[i], '\n'),
    ensures
        spec_lines(spec_glue(ls)) == ls,
    decreases ls.len(),
{
    if ls.len() == 0 {
    } else {
        let t = ls.subrange(1, ls.len() as int);
        assert forall|i: int| 0 <= i < t.len() implies !has_char(#[trigger] t[i], '\n') by {
            assert(t[i] == ls[i + 1]);
        }
        lemma_lines_glue(t);
        lemma_lines_step(ls[0], spec_glue(t));
        assert(ls[0] + seq!['\n'] + spec_glue(t) == spec_glue(ls));
        assert(seq![ls[0]] + t =~= ls);
    }
}

/// Build the merged contents of a target file. Every line of the
/// trimmed Markdown document is emitted as a documentation comment line
/// (the marker, one space, the line, one newline); then every line of
/// the target is emitted unchanged with one newline, unless it begins
/// with the marker, in which case it is dropped. A line ends at `\n`,
/// and one `\r` right before it is dropped, so `\r\n`-ended lines come
/// out `\n`-ended.
pub fn merge_contents(md: &str, target: &str) -> (r: String)
    ensures
        r@ == spec_merge(md@, target@),
{
    let trimmed = trim(md);
    let md_lines = split_lines(trimmed);
    let target_lines = split_lines(target);
    let ghost ml = chomp_lines(strs_view(md_lines@));
    let ghost cl = spec_comment_lines(ml);
    let ghost tl = chomp_lines(strs_view(target_lines@));
    let mut out = String::new();
    let mut k: usize = 0;
    proof {
        assert(ml.subrange(0, 0) =~= Seq::<Seq<char>>::empty());
        assert(spec_comment_lines(ml.subrange(0, 0)) =~= Seq::<Seq<char>>::empty());
    }
    while k < md_lines.len()
        invariant
            k <= md_lines.len(),
            ml == chomp_lines(strs_view(md_lines@)),
            out@ == spec_glue(spec_comment_lines(ml.subrange(0, k as int))),
        decreases md_lines.len() - k,
    {
        let line_raw = md_lines[k];
        let nraw = line_raw.unicode_len();
        let line = if nraw > 0 && line_raw.get_char(nraw - 1) == '\r' {
            line_raw.substring_char(0, nraw - 1)
        } else {
            line_raw
        };
        proof {
            assert(strs_view(md_lines@)[k as int] == line_raw@);
            assert(ml[k as int] == chomp_cr(line_raw@));
            assert(line@ == chomp_cr(line_raw@));
        }
        out.append("//! ");
        out.append(line);
        out.append("\n");
        proof {
            reveal_strlit("//! ");
            reveal_strlit("\n");
            assert("//! "@ =~= marker_space());
            assert("\n"@ =~= seq!['\n']);
            let prev = spec_comment_lines(ml.subrange(0, k as int));
            assert(ml.subrange(0, k as int + 1) =~= ml.subrange(0, k as int).push(ml[k as int]));
            assert(spec_comment_lines(ml.subrange(0, k as int + 1)) =~= prev.push(
                marker_space() + ml[k as int],
            ));
            lemma_glue_push(prev, marker_space() + ml[k as int]);
            assert(ml[k as int] == line@);
            assert(out@ =~= spec_glue(prev) + (marker_space() + ml[k as int]) + seq!['\n']);
        }
        k = k + 1;
    }
    proof {
        assert(ml.subrange(0, ml.len() as int) =~= ml);
        assert(out@ == spec_glue(cl));
        assert(tl.subrange(0, 0) =~= Seq::<Seq<char>>::empty());
        assert(spec_keep_lines(tl.subrange(0, 0)) =~= Seq::<Seq<char>>::empty());
        assert(out@ + spec_glue(spec_keep_lines(tl.subrange(0, 0))) =~= out@);
    }
    let mut j: usize = 0;
    while j < target_lines.len()
        invariant
            j <= target_lines.len(),
            tl == chomp_lines(strs_view(target_lines@)),
            out@ == spec_glue(cl) + spec_glue(spec_keep_lines(tl.subrange(0, j as int))),
        decreases target_lines.len() - j,
    {
        let line_raw = target_lines[j];
        let nraw = line_raw.unicode_len();
        let line = if nraw > 0 && line_raw.get_char(nraw - 1) == '\r' {
            line_raw.substring_char(0, nraw - 1)
        } else {
            line_raw
        };
        proof {
            assert(strs_view(target_lines@)[j as int] == line_raw@);
            assert(tl[j as int] == chomp_cr(line_raw@));
            assert(line@ == chomp_cr(line_raw@));
        }
        let n = line.unicode_len();
        let drop_line = n >= 3 && line.get_char(0) == '/' && line.get_char(1) == '/'
            && line.get_char(2) == '!';
        if !drop_line {
            out.append(line);
            out.append("\n");
        }
        proof {
            reveal_strlit("\n");
            assert("\n"@ =~= seq!['\n']);
            let prev = spec_keep_lines(tl.subrange(0, j as int));
            assert(tl.subrange(0, j as int + 1) =~= tl.subrange(0, j as int).push(tl[j as int]));
            assert(tl[j as int] == line@);
            assert(drop_line == starts_with_marker(line@));
            lemma_keep_push(tl.subrange(0, j as int), line@);
            if !drop_line {
                lemma_glue_push(prev, line@);
                assert(out@ =~= spec_glue(cl) + (spec_glue(prev) + line@ + seq!['\n']));
            }
        }
        j = j + 1;
    }
    proof {
        assert(tl.subrange(0, tl.len() as int) =~= tl);
        lemma_glue_concat(cl, spec_keep_lines(tl));
    }
    out
}

/// Overwrite correctness: the merged text's lines are exactly one
/// documentation comment line per line of the trimmed Markdown document,
/// each beginning with the marker, followed by exactly the target's
/// lines that do not begin with the marker, in their original order.
pub proof fn lemma_merge_overwrite(md: Seq<char>, target: Seq<char>)
    ensures
        ({
            let doc = spec_comment_lines(chomp_lines(spec_lines(spec_trim(md))));
            let kept = spec_keep_lines(chomp_lines(spec_lines(target)));
            &&& spec_lines(spec_merge(md, target)) == doc + kept
            &&& doc.len() == spec_lines(spec_trim(md)).len()
            &&& (forall|i: int| 0 <= i < doc.len() ==> starts_with_marker(#[trigger] doc[i]))
            &&& (forall|i: int| 0 <= i < kept.len() ==> !starts_with_marker(#[trigger] kept[i]))
        }),
{
    let mdl = chomp_lines(spec_lines(spec_trim(md)));
    let tll = chomp_lines(spec_lines(target));
    let doc = spec_comment_lines(mdl);
    let kept = spec_keep_lines(tll);
    lemma_lines_no_newline(spec_trim(md));
    lemma_lines_no_newline(target);
    lemma_chomp_lines_no_newline(spec_lines(spec_trim(md)));
    lemma_chomp_lines_no_newline(spec_lines(target));
    lemma_comment_facts(mdl);
    lemma_keep_facts(tll);
    assert forall|i: int| 0 <= i < (doc + kept).len() implies !has_char(
        #[trigger] (doc + kept)[i],
        '\n',
    ) by {
        if i < doc.len() {
            assert((doc + kept)[i] == doc[i]);
        } else {
            assert((doc + kept)[i] == kept[i - doc.len()]);
        }
    }
    lemma_lines_glue(doc + kept);
}

/// Idempotence: merging the same Markdown document into the result of a
/// first merge reproduces that result exactly, provided no surviving
/// target line still ends with a carriage return (a raw line would have
/// to end in two; the first merge keeps one of them, the second would
/// drop it).
pub proof fn lemma_merge_idempotent(md: Seq<char>, target: Seq<char>)
    requires
        no_line_ends_cr(spec_keep_lines(chomp_lines(spec_lines(target)))),
    ensures
        spec_merge(md, spec_merge(md, target)) == spec_merge(md, target),
{
    let mdl = chomp_lines(spec_lines(spec_trim(md)));
    let doc = spec_comment_lines(mdl);
    let kept = spec_keep_lines(chomp_lines(spec_lines(target)));
    lemma_merge_overwrite(md, target);
    lemma_chomp_lines_concat(doc, kept);
    assert forall|i: int| 0 <= i < chomp_lines(doc).len() implies starts_with_marker(
        #[trigger] chomp_lines(doc)[i],
    ) by {
        let l = doc[i];
        assert(l == marker_space() + mdl[i]);
        assert(l.len() >= 4);
        assert(starts_with_marker(l));
        assert(chomp_lines(doc)[i] == chomp_cr(l));
        if l.len() > 0 && l[l.len() - 1] == '\r' {
            assert(chomp_cr(l)[0] == l[0]);
            assert(chomp_cr(l)[1] == l[1]);
            assert(chomp_cr(l)[2] == l[2]);
        }
    }
    lemma_keep_all_marker(chomp_lines(doc));
    assert forall|i: int| 0 <= i < kept.len() implies #[trigger] chomp_lines(kept)[i]
        == kept[i] by {
        assert(kept[i].len() == 0 || kept[i][kept[i].len() - 1] != '\r');
        assert(chomp_lines(kept)[i] == chomp_cr(kept[i]));
    }
    assert(chomp_lines(kept) =~= kept);
    lemma_keep_facts(chomp_lines(spec_lines(target)));
    lemma_keep_no_marker(kept);
    lemma_keep_concat(chomp_lines(doc), chomp_lines(kept));
    assert(spec_keep_lines(chomp_lines(spec_lines(spec_merge(md, target)))) =~= kept);
}

} // verus!
