//! Output judges: strict, standard (line-wise, ignoring trailing white space) and
//! the framing of a special judge's report.
use vstd::prelude::*;

use crate::models::{answer_placeholder, output_placeholder, ProblemType, Status};
use crate::text::chars_of;

verus! {

/// Unicode white space, as `char::is_whitespace` documents it.
pub open spec fn is_white(c: char) -> bool {
    c == '\t' || c == '\n' || c == '\u{0B}' || c == '\u{0C}' || c == '\r' || c == ' '
        || c == '\u{85}' || c == '\u{A0}' || c == '\u{1680}' || ('\u{2000}' <= c
        && c <= '\u{200A}') || c == '\u{2028}' || c == '\u{2029}' || c == '\u{202F}'
        || c == '\u{205F}' || c == '\u{3000}'
}

/// `s` without its trailing white space.
pub open spec fn trim_end(s: Seq<char>) -> Seq<char>
    decreases s.len(),
{
    if s.len() > 0 && is_white(s.last()) {
        trim_end(s.drop_last())
    } else {
        s
    }
}

/// The pieces of `s` between line feeds; there is always at least one.
pub open spec fn split_lines(s: Seq<char>) -> Seq<Seq<char>>
    decreases s.len(),
{
    if s.len() == 0 {
        seq![Seq::empty()]
    } else if s.last() == '\n' {
        split_lines(s.drop_last()).push(Seq::empty())
    } else {
        let r = split_lines(s.drop_last());
        r.update(r.len() - 1, r.last().push(s.last()))
    }
}

/// The standard judge: both texts without trailing white space, cut at line feeds,
/// have as many lines, and each pair of lines is equal up to trailing white space.
pub open spec fn standard_verdict(got: Seq<char>, expected: Seq<char>) -> Status {
    let g = split_lines(trim_end(got));
    let e = split_lines(trim_end(expected));
    if g.len() == e.len() && forall|i: int| 0 <= i < g.len() ==> trim_end(#[trigger] g[i]) == trim_end(e[i]) {
        Status::Accepted
    } else {
        Status::WrongAnswer
    }
}

/// The strict judge: byte-for-byte equality.
pub open spec fn strict_verdict(got: Seq<char>, expected: Seq<char>) -> Status {
    if got == expected {
        Status::Accepted
    } else {
        Status::WrongAnswer
    }
}

fn is_white_char(c: char) -> (r: bool)
    ensures
        r == is_white(c),
{
    c == '\t' || c == '\n' || c == '\u{0B}' || c == '\u{0C}' || c == '\r' || c == ' '
        || c == '\u{85}' || c == '\u{A0}' || c == '\u{1680}' || ('\u{2000}' <= c
        && c <= '\u{200A}') || c == '\u{2028}' || c == '\u{2029}' || c == '\u{202F}'
        || c == '\u{205F}' || c == '\u{3000}'
}

/// End of `v[start..end]` once its trailing white space is cut.
fn trimmed_end(v: &Vec<char>, start: usize, end: usize) -> (k: usize)
    requires
        start <= end <= v@.len(),
    ensures
        start <= k <= end,
        trim_end(v@.subrange(start as int, end as int)) == v@.subrange(start as int, k as int),
{
    let mut k = end;
    while k > start && is_white_char(v[k - 1])
        invariant
            start <= k <= end <= v@.len(),
            trim_end(v@.subrange(start as int, end as int)) == trim_end(
                v@.subrange(start as int, k as int),
            ),
        decreases k,
    {
        assert(v@.subrange(start as int, k as int).drop_last() =~= v@.subrange(
            start as int,
            k - 1,
        ));
        k = k - 1;
    }
    k
}

/// Start and end of each line of `v[0..n]`, as `split_lines` cuts it.
fn line_bounds(v: &Vec<char>, n: usize) -> (r: Vec<(usize, usize)>)
    requires
        n <= v@.len(),
    ensures
        r@.len() == split_lines(v@.take(n as int)).len(),
        forall|i: int| 0 <= i < r@.len() ==> #[trigger] r@[i].0 <= r@[i].1 <= n,
        forall|i: int|
            0 <= i < r@.len() ==> v@.subrange(r@[i].0 as int, r@[i].1 as int) == #[trigger] split_lines(
                v@.take(n as int),
            )[i],
{
    let mut r: Vec<(usize, usize)> = Vec::new();
    let mut start: usize = 0;
    let mut i: usize = 0;
    let ghost lines = split_lines(v@.take(0));
    while i < n
        invariant
            i <= n <= v@.len(),
            start <= i,
            lines == split_lines(v@.take(i as int)),
            lines.len() == r@.len() + 1,
            lines.last() == v@.subrange(start as int, i as int),
            forall|j: int| 0 <= j < r@.len() ==> #[trigger] r@[j].0 <= r@[j].1 <= i,
            forall|j: int|
                0 <= j < r@.len() ==> v@.subrange(r@[j].0 as int, r@[j].1 as int) == #[trigger] lines[j],
        decreases n - i,
    {
        let ghost before = lines;
        assert(v@.take(i + 1).drop_last() =~= v@.take(i as int));
        assert(v@.take(i + 1).last() == v@[i as int]);
        proof {
            lines = split_lines(v@.take(i + 1));
        }
        let ghost r0 = r@;
        if v[i] == '\n' {
            assert(lines == before.push(Seq::empty()));
            r.push((start, i));
            assert forall|j: int| 0 <= j < r@.len() implies #[trigger] r@[j].0 <= r@[j].1 <= i + 1 by {
                if j < r0.len() {
                    assert(r@[j] == r0[j]);
                }
            }
            start = i + 1;
            assert(v@.subrange(start as int, (i + 1) as int) =~= Seq::<char>::empty());
            assert forall|j: int| 0 <= j < r@.len() implies v@.subrange(
                r@[j].0 as int,
                r@[j].1 as int,
            ) == #[trigger] lines[j] by {
                assert(lines[j] == before[j]);
            }
        } else {
            assert(lines == before.update(before.len() - 1, before.last().push(v@[i as int])));
            assert(v@.subrange(start as int, (i + 1) as int) =~= v@.subrange(
                start as int,
                i as int,
            ).push(v@[i as int]));
            assert forall|j: int| 0 <= j < r@.len() implies v@.subrange(
                r@[j].0 as int,
                r@[j].1 as int,
            ) == #[trigger] lines[j] by {
                assert(lines[j] == before[j]);
            }
        }
        i = i + 1;
    }
    let ghost before = r@;
    r.push((start, n));
    assert(v@.take(n as int) =~= v@.take(i as int));
    assert forall|j: int| 0 <= j < r@.len() implies v@.subrange(r@[j].0 as int, r@[j].1 as int)
        == #[trigger] split_lines(v@.take(n as int))[j] by {
        assert(lines[j] == split_lines(v@.take(n as int))[j]);
        if j < before.len() {
            assert(r@[j] == before[j]);
        }
    }
    r
}

/// Whether `a[a0..a1]` and `b[b0..b1]` hold the same characters.
fn same_range(a: &Vec<char>, a0: usize, a1: usize, b: &Vec<char>, b0: usize, b1: usize) -> (r: bool)
    requires
        a0 <= a1 <= a@.len(),
        b0 <= b1 <= b@.len(),
    ensures
        r == (a@.subrange(a0 as int, a1 as int) == b@.subrange(b0 as int, b1 as int)),
{
    if a1 - a0 != b1 - b0 {
        assert(a@.subrange(a0 as int, a1 as int).len() != b@.subrange(b0 as int, b1 as int).len());
        return false;
    }
    let ghost sa = a@.subrange(a0 as int, a1 as int);
    let ghost sb = b@.subrange(b0 as int, b1 as int);
    let mut i: usize = 0;
    while i < a1 - a0
        invariant
            a0 <= a1 <= a@.len(),
            b0 <= b1 <= b@.len(),
            a1 - a0 == b1 - b0,
            sa == a@.subrange(a0 as int, a1 as int),
            sb == b@.subrange(b0 as int, b1 as int),
            i <= a1 - a0,
            forall|j: int| 0 <= j < i ==> #[trigger] sa[j] == sb[j],
        decreases a1 - a0 - i,
    {
        if a[a0 + i] != b[b0 + i] {
            assert(sa[i as int] != sb[i as int]);
            return false;
        }
        i = i + 1;
    }
    assert(sa =~= sb);
    true
}

/// Compares line by line, ignoring trailing white space of each line and of the whole.
pub fn standard_judge(got: &str, expected: &str) -> (r: Status)
    ensures
        r == standard_verdict(got@, expected@),
{
    let g = chars_of(got);
    let e = chars_of(expected);
    let gn = trimmed_end(&g, 0, g.len());
    let en = trimmed_end(&e, 0, e.len());
    assert(g@.subrange(0, g@.len() as int) =~= g@);
    assert(e@.subrange(0, e@.len() as int) =~= e@);
    assert(g@.subrange(0, gn as int) =~= g@.take(gn as int));
    assert(e@.subrange(0, en as int) =~= e@.take(en as int));
    let gl = line_bounds(&g, gn);
    let el = line_bounds(&e, en);
    let ghost gs = split_lines(g@.take(gn as int));
    let ghost es = split_lines(e@.take(en as int));
    assert(gs == split_lines(trim_end(got@)));
    assert(es == split_lines(trim_end(expected@)));
    if gl.len() != el.len() {
        assert(split_lines(trim_end(got@)).len() != split_lines(trim_end(expected@)).len());
        return Status::WrongAnswer;
    }
    let mut i: usize = 0;
    while i < gl.len()
        invariant
            gl@.len() == el@.len() == gs.len() == es.len(),
            i <= gl@.len(),
            gs == split_lines(g@.take(gn as int)),
            es == split_lines(e@.take(en as int)),
            gs == split_lines(trim_end(got@)),
            es == split_lines(trim_end(expected@)),
            gn <= g@.len(),
            en <= e@.len(),
            forall|j: int| 0 <= j < gl@.len() ==> #[trigger] gl@[j].0 <= gl@[j].1 <= gn,
            forall|j: int| 0 <= j < el@.len() ==> #[trigger] el@[j].0 <= el@[j].1 <= en,
            forall|j: int|
                0 <= j < gl@.len() ==> g@.subrange(gl@[j].0 as int, gl@[j].1 as int) == #[trigger] split_lines(
                    g@.take(gn as int),
                )[j],
            forall|j: int|
                0 <= j < el@.len() ==> e@.subrange(el@[j].0 as int, el@[j].1 as int) == #[trigger] split_lines(
                    e@.take(en as int),
                )[j],
            forall|j: int| 0 <= j < i ==> trim_end(#[trigger] gs[j]) == trim_end(es[j]),
        decreases gl@.len() - i,
    {
        let (g0, g1) = gl[i];
        let (e0, e1) = el[i];
        let gk = trimmed_end(&g, g0, g1);
        let ek = trimmed_end(&e, e0, e1);
        assert(gs[i as int] == g@.subrange(g0 as int, g1 as int));
        assert(es[i as int] == e@.subrange(e0 as int, e1 as int));
        if !same_range(&g, g0, gk, &e, e0, ek) {
            assert(trim_end(gs[i as int]) != trim_end(es[i as int]));
            return Status::WrongAnswer;
        }
        i = i + 1;
    }
    Status::Accepted
}

/// Accepts exactly when the two texts are equal.
pub fn strict_judge(got: &str, expected: &str) -> (r: Status)
    ensures
        r == strict_verdict(got@, expected@),
{
    let g = chars_of(got);
    let e = chars_of(expected);
    if crate::text::same_chars(g.as_slice(), e.as_slice()) {
        Status::Accepted
    } else {
        Status::WrongAnswer
    }
}

/// A text always passes the standard judge against itself.
pub proof fn lemma_standard_reflexive(x: Seq<char>)
    ensures
        standard_verdict(x, x) == Status::Accepted,
{
}

/// The pieces of `s` between line feeds, where a final line feed ends the last line
/// rather than starting an empty one.
pub open spec fn terminated_lines(s: Seq<char>) -> Seq<Seq<char>> {
    if s.len() == 0 {
        Seq::empty()
    } else if s.last() == '\n' {
        split_lines(s.drop_last())
    } else {
        split_lines(s)
    }
}

/// A special judge's report is well formed when it is exactly two non-empty lines:
/// a verdict name, then a message.
pub open spec fn report_lines(out: Seq<char>) -> Option<(Seq<char>, Seq<char>)> {
    let lines = terminated_lines(out);
    if lines.len() == 2 && lines[0].len() > 0 && lines[1].len() > 0 {
        Some((lines[0], lines[1]))
    } else {
        None
    }
}

/// Cuts a special judge's output into its verdict line and its message line;
/// `None` when it is not exactly two non-empty lines.
pub fn special_judge_report(out: &str) -> (r: Option<(String, String)>)
    ensures
        r matches Some((v, m)) ==> report_lines(out@) == Some((v@, m@)),
        r is None ==> report_lines(out@) is None,
{
    let v = chars_of(out);
    let len = v.len();
    if len == 0 {
        return None;
    }
    let n = if v[len - 1] == '\n' {
        len - 1
    } else {
        len
    };
    assert(v@.take(n as int) == if v@.last() == '\n' {
        out@.drop_last()
    } else {
        out@
    });
    let lines = line_bounds(&v, n);
    if lines.len() != 2 {
        return None;
    }
    let (a0, a1) = lines[0];
    let (b0, b1) = lines[1];
    assert(split_lines(v@.take(n as int))[0] == v@.subrange(a0 as int, a1 as int));
    assert(split_lines(v@.take(n as int))[1] == v@.subrange(b0 as int, b1 as int));
    if a0 == a1 || b0 == b1 {
        return None;
    }
    let first = out.substring_char(a0, a1).to_owned();
    let second = out.substring_char(b0, b1).to_owned();
    Some((first, second))
}

/// One argument of a special judge's command after substitution.
pub open spec fn special_judge_segment(
    segment: Seq<char>,
    output: Seq<char>,
    answer: Seq<char>,
) -> Seq<char> {
    if segment == output_placeholder() {
        output
    } else if segment == answer_placeholder() {
        answer
    } else {
        segment
    }
}

/// The special judge's command line with `%OUTPUT%` and `%ANSWER%` replaced by the
/// paths of the program's output and of the case's answer.
pub fn special_judge_command(template: &Vec<String>, output: &str, answer: &str) -> (r: Vec<String>)
    ensures
        r@.len() == template@.len(),
        forall|i: int|
            0 <= i < r@.len() ==> #[trigger] r@[i]@ == special_judge_segment(
                template@[i]@,
                output@,
                answer@,
            ),
{
    let mut r: Vec<String> = Vec::new();
    let mut i: usize = 0;
    while i < template.len()
        invariant
            i <= template@.len(),
            r@.len() == i,
            forall|j: int|
                0 <= j < i ==> #[trigger] r@[j]@ == special_judge_segment(
                    template@[j]@,
                    output@,
                    answer@,
                ),
        decreases template@.len() - i,
    {
        let segment = template[i].as_str();
        proof {
            reveal_strlit("%OUTPUT%");
            reveal_strlit("%ANSWER%");
            assert("%OUTPUT%"@ =~= output_placeholder());
            assert("%ANSWER%"@ =~= answer_placeholder());
        }
        if crate::text::same_text(segment, "%OUTPUT%") {
            r.push(output.to_owned());
        } else if crate::text::same_text(segment, "%ANSWER%") {
            r.push(answer.to_owned());
        } else {
            r.push(segment.to_owned());
        }
        i = i + 1;
    }
    r
}

/// The verdict on a case's output for a problem judged by comparison.
pub open spec fn output_verdict(kind: ProblemType, got: Seq<char>, expected: Seq<char>) -> Status {
    match kind {
        ProblemType::Strict => strict_verdict(got, expected),
        _ => standard_verdict(got, expected),
    }
}

/// Judges a case's output against its answer: strict problems byte for byte, the
/// others (standard, and dynamic-ranking ones, which rank differently but judge
/// alike) with the standard judge. Special-judge problems are judged by their
/// judge's report instead.
pub fn judge_output(kind: ProblemType, got: &str, expected: &str) -> (r: Status)
    requires
        kind != ProblemType::SpecialJudge,
    ensures
        r == output_verdict(kind, got@, expected@),
{
    match kind {
        ProblemType::Strict => strict_judge(got, expected),
        _ => standard_judge(got, expected),
    }
}

} // verus!
