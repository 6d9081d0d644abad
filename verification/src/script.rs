//! Script segmentation and rendering.
//!
//! The segmenter partitions the lines of a script into steps: each step is
//! a run of comment lines together with the executable lines that follow
//! them. Blank lines and comment lines carrying the skip marker contribute
//! to no step. The renderer serializes each step as one numbered markup
//! entry holding the collapsed comment text and a fenced code block.

use vstd::prelude::*;
use vstd::string::StrSliceExecFns;
use vstd::string::StringExecFns;

verus! {

/// One tutorial entry: the comment lines that introduce it and the
/// executable lines they describe. Lines are kept verbatim, terminators
/// included, as slices of the source text.
pub struct Step<'a> {
    pub comments: Vec<&'a str>,
    pub code: Vec<&'a str>,
    pub format: &'a str,
}

/// A whole parsed script: the optional interpreter line and the steps in
/// source order.
pub struct Script<'a> {
    pub shebang: Option<&'a str>,
    pub steps: Vec<Step<'a>>,
}

/// Mathematical model of a [`Step`].
pub ghost struct StepModel {
    pub comments: Seq<Seq<char>>,
    pub code: Seq<Seq<char>>,
    pub format: Seq<char>,
}

/// Mathematical model of a [`Script`].
pub ghost struct ScriptModel {
    pub shebang: Option<Seq<char>>,
    pub steps: Seq<StepModel>,
}

impl<'a> Step<'a> {
    pub open spec fn model(&self) -> StepModel {
        StepModel {
            comments: self.comments.deep_view(),
            code: self.code.deep_view(),
            format: self.format@,
        }
    }
}

impl<'a> Script<'a> {
    pub open spec fn model(&self) -> ScriptModel {
        ScriptModel {
            shebang: match self.shebang {
                Some(s) => Some(s@),
                None => None,
            },
            steps: Seq::new(self.steps.len() as nat, |i: int| self.steps[i].model()),
        }
    }
}

/// The code-fence language tag, the same for every step.
pub open spec fn fence_tag() -> Seq<char> {
    seq!['b', 'a', 's', 'h']
}

/// The marker that drops a comment line from the tutorial.
pub open spec fn skip_marker() -> Seq<char> {
    seq!['#', ' ', 'm', 'd', 'b', 'a', 's', 'h', ':', ' ', 's', 'k', 'i', 'p', '-', 'l', 'i', 'n', 'e']
}

pub open spec fn is_eol_char(c: char) -> bool {
    c == '\n' || c == '\r'
}

/// A line with its trailing terminator characters removed.
pub open spec fn strip_eol(s: Seq<char>) -> Seq<char>
    decreases s.len(),
{
    if s.len() > 0 && is_eol_char(s.last()) {
        strip_eol(s.drop_last())
    } else {
        s
    }
}

/// A line that is empty once its terminator is stripped.
pub open spec fn is_blank(l: Seq<char>) -> bool {
    strip_eol(l).len() == 0
}

/// A comment line: its first character is the comment marker.
pub open spec fn is_comment(l: Seq<char>) -> bool {
    l.len() > 0 && l[0] == '#'
}

/// A line that, stripped of its terminator, ends with the skip marker.
pub open spec fn ends_with_skip_marker(l: Seq<char>) -> bool {
    let t = strip_eol(l);
    t.len() >= 19 && t.skip(t.len() - 19) == skip_marker()
}

/// A line the segmenter keeps: not blank, and not a skipped comment.
/// The skip marker only fires on comment lines; an executable line that
/// happens to end with it stays.
pub open spec fn keep_line(l: Seq<char>) -> bool {
    !is_blank(l) && !(is_comment(l) && ends_with_skip_marker(l))
}

/// The interpreter-directive test: the line begins with `#!`.
pub open spec fn is_shebang(l: Seq<char>) -> bool {
    l.len() >= 2 && l[0] == '#' && l[1] == '!'
}

/// Index of the first newline in `s`, or `s.len()` if there is none.
pub open spec fn first_nl(s: Seq<char>) -> int
    decreases s.len(),
{
    if s.len() == 0 {
        0
    } else if s[0] == '\n' {
        0
    } else {
        1 + first_nl(s.drop_first())
    }
}

pub proof fn lemma_first_nl(s: Seq<char>)
    ensures
        0 <= first_nl(s) <= s.len(),
        forall|i: int| 0 <= i < first_nl(s) ==> s[i] != '\n',
        first_nl(s) < s.len() ==> s[first_nl(s)] == '\n',
    decreases s.len(),
{
    if s.len() == 0 {
    } else if s[0] == '\n' {
    } else {
        lemma_first_nl(s.drop_first());
        assert forall|i: int| 0 <= i < first_nl(s) implies s[i] != '\n' by {
            if i > 0 {
                assert(s[i] == s.drop_first()[i - 1]);
            }
        }
        if first_nl(s) < s.len() {
            assert(s[first_nl(s)] == s.drop_first()[first_nl(s) - 1]);
        }
    }
}

pub proof fn lemma_first_nl_is(s: Seq<char>, k: int)
    requires
        0 <= k <= s.len(),
        forall|i: int| 0 <= i < k ==> s[i] != '\n',
        k < s.len() ==> s[k] == '\n',
    ensures
        first_nl(s) == k,
    decreases s.len(),
{
    if s.len() == 0 {
    } else if s[0] == '\n' {
        assert(k == 0);
    } else {
        assert(k >= 1);
        let d = s.drop_first();
        assert forall|i: int| 0 <= i < k - 1 implies d[i] != '\n' by {
            assert(d[i] == s[i + 1]);
        }
        if k - 1 < d.len() {
            assert(d[k - 1] == s[k]);
        }
        lemma_first_nl_is(d, k - 1);
    }
}

/// The lines of a text, each keeping its terminator; a final line without
/// a terminator is kept too, and empty text has no lines.
pub open spec fn split_lines_model(s: Seq<char>) -> Seq<Seq<char>>
    decreases s.len(),
    via split_lines_model_dec
{
    if s.len() == 0 {
        seq![]
    } else {
        let n = first_nl(s);
        if n >= s.len() {
            seq![s]
        } else {
            seq![s.take(n + 1)] + split_lines_model(s.skip(n + 1))
        }
    }
}

#[via_fn]
proof fn split_lines_model_dec(s: Seq<char>) {
    lemma_first_nl(s);
}

pub proof fn lemma_strip_eol_is(s: Seq<char>, k: int)
    requires
        0 <= k <= s.len(),
        forall|i: int| k <= i < s.len() ==> is_eol_char(s[i]),
        k > 0 ==> !is_eol_char(s[k - 1]),
    ensures
        strip_eol(s) == s.take(k),
    decreases s.len(),
{
    if k == s.len() {
        assert(s.take(k) =~= s);
    } else {
        assert(is_eol_char(s.last()));
        let d = s.drop_last();
        assert(d =~= s.take(s.len() - 1));
        assert forall|i: int| k <= i < d.len() implies is_eol_char(d[i]) by {
            assert(d[i] == s[i]);
        }
        if k > 0 {
            assert(d[k - 1] == s[k - 1]);
        }
        lemma_strip_eol_is(d, k);
        assert(d.take(k) =~= s.take(k));
    }
}

fn eol_char(c: char) -> (r: bool)
    ensures
        r == is_eol_char(c),
{
    c == '\n' || c == '\r'
}

fn nl_char(c: char) -> (r: bool)
    ensures
        r == (c == '\n'),
{
    c == '\n'
}

/// Length of the line once trailing terminator characters are removed.
fn eol_start(l: &str) -> (k: usize)
    ensures
        k <= l@.len(),
        l@.take(k as int) == strip_eol(l@),
{
    let n = l.unicode_len();
    let mut k: usize = n;
    while k > 0 && eol_char(l.get_char(k - 1))
        invariant
            k <= n,
            n == l@.len(),
            forall|i: int| k <= i < l@.len() ==> is_eol_char(l@[i]),
        decreases k,
    {
        k = k - 1;
    }
    proof {
        lemma_strip_eol_is(l@, k as int);
    }
    k
}

/// Character-for-character string equality.
pub(crate) fn str_eq(a: &str, b: &str) -> (r: bool)
    ensures
        r == (a@ == b@),
{
    let n = a.unicode_len();
    if n != b.unicode_len() {
        return false;
    }
    let mut i: usize = 0;
    while i < n
        invariant
            i <= n,
            n == a@.len(),
            n == b@.len(),
            forall|j: int| 0 <= j < i ==> a@[j] == b@[j],
        decreases n - i,
    {
        if a.get_char(i) != b.get_char(i) {
            return false;
        }
        i = i + 1;
    }
    proof {
        assert(a@ =~= b@);
    }
    true
}

fn line_is_blank(l: &str) -> (r: bool)
    ensures
        r == is_blank(l@),
{
    let k = eol_start(l);
    k == 0
}

fn line_is_comment(l: &str) -> (r: bool)
    ensures
        r == is_comment(l@),
{
    if l.unicode_len() == 0 {
        false
    } else {
        l.get_char(0) == '#'
    }
}

fn line_is_shebang(l: &str) -> (r: bool)
    ensures
        r == is_shebang(l@),
{
    if l.unicode_len() < 2 {
        false
    } else {
        l.get_char(0) == '#' && l.get_char(1) == '!'
    }
}

fn line_ends_with_skip_marker(l: &str) -> (r: bool)
    ensures
        r == ends_with_skip_marker(l@),
{
    let k = eol_start(l);
    if k < 19 {
        return false;
    }
    let tail = l.substring_char(k - 19, k);
    let r = str_eq(tail, "# mdbash: skip-line");
    proof {
        reveal_strlit("# mdbash: skip-line");
        assert("# mdbash: skip-line"@ =~= skip_marker());
        assert(strip_eol(l@).skip(k as int - 19) =~= l@.subrange(k as int - 19, k as int));
    }
    r
}

fn line_is_kept(l: &str) -> (r: bool)
    ensures
        r == keep_line(l@),
{
    if line_is_blank(l) {
        false
    } else if line_is_comment(l) && line_ends_with_skip_marker(l) {
        false
    } else {
        true
    }
}

/// Splits a text into its lines, each keeping its terminator.
pub fn split_lines<'a>(text: &'a str) -> (r: Vec<&'a str>)
    ensures
        r.deep_view() == split_lines_model(text@),
{
    let n = text.unicode_len();
    let mut r: Vec<&'a str> = Vec::new();
    let mut start: usize = 0;
    proof {
        assert(text@.skip(0) =~= text@);
        assert(r.deep_view() =~= Seq::<Seq<char>>::empty());
        assert(r.deep_view() + split_lines_model(text@) =~= split_lines_model(text@));
    }
    while start < n
        invariant
            start <= n,
            n == text@.len(),
            split_lines_model(text@) == r.deep_view() + split_lines_model(
                text@.skip(start as int),
            ),
        decreases n - start,
    {
        let mut j: usize = start;
        while j < n && !nl_char(text.get_char(j))
            invariant
                start <= j <= n,
                n == text@.len(),
                forall|i: int| start <= i < j ==> text@[i] != '\n',
            decreases n - j,
        {
            j = j + 1;
        }
        let line_end = if j < n {
            j + 1
        } else {
            j
        };
        let line = text.substring_char(start, line_end);
        proof {
            let s = text@.skip(start as int);
            assert forall|i: int| 0 <= i < j - start implies s[i] != '\n' by {
                assert(s[i] == text@[start + i]);
            }
            if j < n {
                assert(s[j - start] == text@[j as int]);
            }
            lemma_first_nl_is(s, j - start);
            let old_deep = r.deep_view();
            if j < n {
                assert(line@ =~= s.take(j - start + 1));
                assert(text@.skip(line_end as int) =~= s.skip(j - start + 1));
                assert(split_lines_model(s) == seq![line@] + split_lines_model(
                    text@.skip(line_end as int),
                ));
                assert(old_deep + split_lines_model(s) =~= (old_deep + seq![line@])
                    + split_lines_model(text@.skip(line_end as int)));
            } else {
                assert(line@ =~= s);
                assert(split_lines_model(s) == seq![line@]);
                assert(text@.skip(line_end as int).len() == 0);
                assert(split_lines_model(text@.skip(line_end as int)) =~= Seq::<Seq<char>>::empty());
                assert(old_deep + split_lines_model(s) =~= (old_deep + seq![line@])
                    + split_lines_model(text@.skip(line_end as int)));
            }
        }
        let ghost pre_deep = r.deep_view();
        r.push(line);
        proof {
            assert(r.deep_view() =~= pre_deep + seq![line@]);
        }
        start = line_end;
    }
    proof {
        assert(split_lines_model(text@.skip(start as int)) =~= Seq::<Seq<char>>::empty());
        assert(r.deep_view() + split_lines_model(text@.skip(start as int)) =~= r.deep_view());
    }
    r
}

/// One pass of the segmenter over the lines still to be read, carrying the
/// comment and code lines of the step in progress. A kept comment line that
/// arrives while the step already has comments but no code closes the step;
/// once code has been read, further comment lines join the same step. At end
/// of input a step in progress is emitted only if it has comments.
pub open spec fn scan_rec(
    lines: Seq<Seq<char>>,
    comments: Seq<Seq<char>>,
    code: Seq<Seq<char>>,
) -> Seq<StepModel>
    decreases lines.len(),
{
    if lines.len() == 0 {
        if comments.len() > 0 {
            seq![StepModel { comments, code, format: fence_tag() }]
        } else {
            seq![]
        }
    } else {
        let l = lines[0];
        let rest = lines.drop_first();
        if !keep_line(l) {
            scan_rec(rest, comments, code)
        } else if is_comment(l) {
            if comments.len() > 0 && code.len() == 0 {
                seq![StepModel { comments, code, format: fence_tag() }] + scan_rec(
                    rest,
                    seq![l],
                    seq![],
                )
            } else {
                scan_rec(rest, comments.push(l), code)
            }
        } else {
            scan_rec(rest, comments, code.push(l))
        }
    }
}

/// The steps of a stream of lines, scanned from a fresh state.
pub open spec fn scan_steps(lines: Seq<Seq<char>>) -> Seq<StepModel> {
    scan_rec(lines, seq![], seq![])
}

/// What `parse` returns: the first line is consumed as the shebang exactly
/// when it starts with `#!`, and the remaining lines are segmented.
pub open spec fn parse_model(s: Seq<char>) -> ScriptModel {
    let ls = split_lines_model(s);
    if ls.len() > 0 && is_shebang(ls[0]) {
        ScriptModel { shebang: Some(ls[0]), steps: scan_steps(ls.drop_first()) }
    } else {
        ScriptModel { shebang: None, steps: scan_steps(ls) }
    }
}

pub open spec fn steps_model<'a>(steps: Seq<Step<'a>>) -> Seq<StepModel> {
    Seq::new(steps.len(), |i: int| steps[i].model())
}

/// Segments a script: an optional leading interpreter line, then the
/// steps of the remaining lines, in source order.
pub fn parse<'a>(text: &'a str) -> (r: Script<'a>)
    ensures
        r.model() == parse_model(text@),
{
    let lines = split_lines(text);
    let ghost all = lines.deep_view();
    let mut idx: usize = 0;
    let mut shebang: Option<&'a str> = None;
    if lines.len() > 0 && line_is_shebang(lines[0]) {
        shebang = Some(lines[0]);
        idx = 1;
    }
    let ghost scan_input = all.skip(idx as int);
    let mut steps: Vec<Step<'a>> = Vec::new();
    let mut comments: Vec<&'a str> = Vec::new();
    let mut code: Vec<&'a str> = Vec::new();
    proof {
        assert(steps_model(steps@) =~= Seq::<StepModel>::empty());
        assert(comments.deep_view() =~= Seq::<Seq<char>>::empty());
        assert(code.deep_view() =~= Seq::<Seq<char>>::empty());
        assert(steps_model(steps@) + scan_rec(
            all.skip(idx as int),
            comments.deep_view(),
            code.deep_view(),
        ) =~= scan_rec(scan_input, Seq::empty(), Seq::empty()));
    }
    while idx < lines.len()
        invariant
            idx <= lines.len(),
            lines.deep_view() == all,
            scan_rec(scan_input, Seq::empty(), Seq::empty()) == steps_model(steps@) + scan_rec(
                all.skip(idx as int),
                comments.deep_view(),
                code.deep_view(),
            ),
        decreases lines.len() - idx,
    {
        let l = lines[idx];
        let ghost cur = all.skip(idx as int);
        proof {
            assert(cur[0] == all[idx as int]);
            assert(cur.drop_first() =~= all.skip(idx as int + 1));
        }
        if !line_is_kept(l) {
            // a blank line, or a skipped comment: contributes to no step
        } else if line_is_comment(l) {
            if comments.len() > 0 && code.len() == 0 {
                let ghost c = comments.deep_view();
                let ghost d = code.deep_view();
                let step = Step { comments, code, format: "bash" };
                proof {
                    reveal_strlit("bash");
                    assert("bash"@ =~= fence_tag());
                    assert(step.model() == StepModel { comments: c, code: d, format: fence_tag() });
                }
                let ghost sm = steps_model(steps@);
                steps.push(step);
                comments = Vec::new();
                comments.push(l);
                code = Vec::new();
                proof {
                    assert(steps_model(steps@) =~= sm + seq![
                        StepModel { comments: c, code: d, format: fence_tag() },
                    ]);
                    assert(comments.deep_view() =~= seq![l@]);
                    assert(code.deep_view() =~= Seq::<Seq<char>>::empty());
                    assert(scan_rec(cur, c, d) == seq![
                        StepModel { comments: c, code: d, format: fence_tag() },
                    ] + scan_rec(cur.drop_first(), seq![l@], seq![]));
                    assert(sm + scan_rec(cur, c, d) =~= steps_model(steps@) + scan_rec(
                        all.skip(idx as int + 1),
                        comments.deep_view(),
                        code.deep_view(),
                    ));
                }
            } else {
                let ghost c = comments.deep_view();
                comments.push(l);
                proof {
                    assert(comments.deep_view() =~= c.push(l@));
                }
            }
        } else {
            let ghost d = code.deep_view();
            code.push(l);
            proof {
                assert(code.deep_view() =~= d.push(l@));
            }
        }
        idx = idx + 1;
    }
    proof {
        assert(all.skip(idx as int).len() == 0);
        assert(all.skip(idx as int) =~= Seq::<Seq<char>>::empty());
    }
    if comments.len() > 0 {
        let ghost c = comments.deep_view();
        let ghost d = code.deep_view();
        let ghost sm = steps_model(steps@);
        let step = Step { comments, code, format: "bash" };
        proof {
            reveal_strlit("bash");
            assert("bash"@ =~= fence_tag());
            assert(step.model() == StepModel { comments: c, code: d, format: fence_tag() });
        }
        steps.push(step);
        proof {
            assert(steps_model(steps@) =~= sm + seq![
                StepModel { comments: c, code: d, format: fence_tag() },
            ]);
        }
    } else {
        proof {
            assert(steps_model(steps@) + scan_rec(
                Seq::empty(),
                comments.deep_view(),
                code.deep_view(),
            ) =~= steps_model(steps@));
        }
    }
    let r = Script { shebang, steps };
    proof {
        assert(r.model().steps =~= steps_model(steps@));
        if all.len() > 0 && is_shebang(all[0]) {
            assert(scan_input =~= split_lines_model(text@).drop_first());
        } else {
            assert(scan_input =~= split_lines_model(text@));
        }
    }
    r
}

/// The Unicode white-space characters, as Rust's `char::is_whitespace`
/// recognizes them.
pub open spec fn is_ws_char(c: char) -> bool {
    let u = c as u32;
    (0x09 <= u && u <= 0x0D) || u == 0x20 || u == 0x85 || u == 0xA0 || u == 0x1680 || (0x2000 <= u
        && u <= 0x200A) || u == 0x2028 || u == 0x2029 || u == 0x202F || u == 0x205F || u == 0x3000
}

pub open spec fn strip_hashes(s: Seq<char>) -> Seq<char>
    decreases s.len(),
{
    if s.len() > 0 && s[0] == '#' {
        strip_hashes(s.drop_first())
    } else {
        s
    }
}

pub open spec fn strip_ws(s: Seq<char>) -> Seq<char>
    decreases s.len(),
{
    if s.len() > 0 && is_ws_char(s[0]) {
        strip_ws(s.drop_first())
    } else {
        s
    }
}

/// A comment line as it reads in the rendered entry: the leading comment
/// markers go, then the white space after them, then the line terminator.
pub open spec fn clean_comment(l: Seq<char>) -> Seq<char> {
    strip_eol(strip_ws(strip_hashes(l)))
}

/// The comment lines of a step, cleaned and run together with no separator.
pub open spec fn comments_text(cs: Seq<Seq<char>>) -> Seq<char>
    decreases cs.len(),
{
    if cs.len() == 0 {
        Seq::empty()
    } else {
        clean_comment(cs[0]) + comments_text(cs.drop_first())
    }
}

/// The code lines of a step, kept verbatim and joined by single tabs.
pub open spec fn code_text(cs: Seq<Seq<char>>) -> Seq<char>
    decreases cs.len(),
{
    if cs.len() == 0 {
        Seq::empty()
    } else if cs.len() == 1 {
        cs[0]
    } else {
        cs[0] + seq!['\t'] + code_text(cs.drop_first())
    }
}

/// One rendered entry: the ordinal marker (the literal digit 1 for every
/// step), the collapsed comment text, and the fenced code block, with its
/// exact tabs and newlines.
pub open spec fn render_step_model(s: StepModel) -> Seq<char> {
    seq!['1', '.', ' '] + comments_text(s.comments) + seq!['\t', '`', '`', '`'] + s.format + seq![
        '\n',
        '\t',
    ] + code_text(s.code) + seq!['\t', '`', '`', '`', '\n']
}

/// The rendered entries of all steps, concatenated with no separator.
pub open spec fn render_steps_model(steps: Seq<StepModel>) -> Seq<char>
    decreases steps.len(),
{
    if steps.len() == 0 {
        Seq::empty()
    } else {
        render_step_model(steps[0]) + render_steps_model(steps.drop_first())
    }
}

pub proof fn lemma_strip_hashes_is(s: Seq<char>, k: int)
    requires
        0 <= k <= s.len(),
        forall|i: int| 0 <= i < k ==> s[i] == '#',
        k < s.len() ==> s[k] != '#',
    ensures
        strip_hashes(s) == s.skip(k),
    decreases s.len(),
{
    if k == 0 {
        assert(s.skip(0) =~= s);
    } else {
        let d = s.drop_first();
        assert forall|i: int| 0 <= i < k - 1 implies d[i] == '#' by {
            assert(d[i] == s[i + 1]);
        }
        if k - 1 < d.len() {
            assert(d[k - 1] == s[k]);
        }
        lemma_strip_hashes_is(d, k - 1);
        assert(d.skip(k - 1) =~= s.skip(k));
    }
}

pub proof fn lemma_strip_ws_is(s: Seq<char>, k: int)
    requires
        0 <= k <= s.len(),
        forall|i: int| 0 <= i < k ==> is_ws_char(s[i]),
        k < s.len() ==> !is_ws_char(s[k]),
    ensures
        strip_ws(s) == s.skip(k),
    decreases s.len(),
{
    if k == 0 {
        assert(s.skip(0) =~= s);
    } else {
        let d = s.drop_first();
        assert forall|i: int| 0 <= i < k - 1 implies is_ws_char(d[i]) by {
            assert(d[i] == s[i + 1]);
        }
        if k - 1 < d.len() {
            assert(d[k - 1] == s[k]);
        }
        lemma_strip_ws_is(d, k - 1);
        assert(d.skip(k - 1) =~= s.skip(k));
    }
}

fn ws_char(c: char) -> (r: bool)
    ensures
        r == is_ws_char(c),
{
    let u = c as u32;
    (0x09 <= u && u <= 0x0D) || u == 0x20 || u == 0x85 || u == 0xA0 || u == 0x1680 || (0x2000 <= u
        && u <= 0x200A) || u == 0x2028 || u == 0x2029 || u == 0x202F || u == 0x205F || u == 0x3000
}

/// The cleaned text of one comment line, as a slice of it.
fn clean_comment_slice<'a>(l: &'a str) -> (r: &'a str)
    ensures
        r@ == clean_comment(l@),
{
    let n = l.unicode_len();
    let mut i: usize = 0;
    while i < n && l.get_char(i) == '#'
        invariant
            i <= n,
            n == l@.len(),
            forall|j: int| 0 <= j < i ==> l@[j] == '#',
        decreases n - i,
    {
        i = i + 1;
    }
    proof {
        lemma_strip_hashes_is(l@, i as int);
    }
    let mut w: usize = i;
    while w < n && ws_char(l.get_char(w))
        invariant
            i <= w <= n,
            n == l@.len(),
            forall|j: int| i <= j < w ==> is_ws_char(l@[j]),
        decreases n - w,
    {
        w = w + 1;
    }
    proof {
        let h = l@.skip(i as int);
        assert forall|j: int| 0 <= j < w - i implies is_ws_char(h[j]) by {
            assert(h[j] == l@[i + j]);
        }
        if w - i < h.len() {
            assert(h[w - i] == l@[w as int]);
        }
        lemma_strip_ws_is(h, w - i as int);
        assert(h.skip(w - i as int) =~= l@.skip(w as int));
    }
    let t = l.substring_char(w, n);
    proof {
        assert(t@ =~= l@.skip(w as int));
    }
    let k = eol_start(t);
    let r = t.substring_char(0, k);
    proof {
        assert(r@ =~= t@.take(k as int));
    }
    r
}

pub proof fn lemma_comments_text_snoc(cs: Seq<Seq<char>>, l: Seq<char>)
    ensures
        comments_text(cs.push(l)) == comments_text(cs) + clean_comment(l),
    decreases cs.len(),
{
    if cs.len() == 0 {
        assert(cs.push(l)[0] == l);
        assert(cs.push(l).drop_first() =~= Seq::<Seq<char>>::empty());
        assert(comments_text(Seq::<Seq<char>>::empty()) == Seq::<char>::empty());
        assert(clean_comment(l) + Seq::<char>::empty() =~= clean_comment(l));
        assert(comments_text(cs) + clean_comment(l) =~= clean_comment(l));
    } else {
        assert(cs.push(l)[0] == cs[0]);
        assert(cs.push(l).drop_first() =~= cs.drop_first().push(l));
        lemma_comments_text_snoc(cs.drop_first(), l);
        assert(clean_comment(cs[0]) + (comments_text(cs.drop_first()) + clean_comment(l)) =~= (
        clean_comment(cs[0]) + comments_text(cs.drop_first())) + clean_comment(l));
    }
}

pub proof fn lemma_code_text_snoc(cs: Seq<Seq<char>>, l: Seq<char>)
    ensures
        cs.len() == 0 ==> code_text(cs.push(l)) == l,
        cs.len() > 0 ==> code_text(cs.push(l)) == code_text(cs) + seq!['\t'] + l,
    decreases cs.len(),
{
    if cs.len() == 0 {
        assert(cs.push(l)[0] == l);
    } else if cs.len() == 1 {
        assert(cs.push(l)[0] == cs[0]);
        assert(cs.push(l).drop_first() =~= seq![l]);
        assert(code_text(seq![l]) == l);
    } else {
        assert(cs.push(l)[0] == cs[0]);
        assert(cs.push(l).drop_first() =~= cs.drop_first().push(l));
        lemma_code_text_snoc(cs.drop_first(), l);
        assert(cs[0] + seq!['\t'] + (code_text(cs.drop_first()) + seq!['\t'] + l) =~= (cs[0]
            + seq!['\t'] + code_text(cs.drop_first())) + seq!['\t'] + l);
    }
}

pub proof fn lemma_render_steps_snoc(steps: Seq<StepModel>, m: StepModel)
    ensures
        render_steps_model(steps.push(m)) == render_steps_model(steps) + render_step_model(m),
    decreases steps.len(),
{
    if steps.len() == 0 {
        assert(steps.push(m)[0] == m);
        assert(steps.push(m).drop_first() =~= Seq::<StepModel>::empty());
        assert(render_steps_model(Seq::<StepModel>::empty()) == Seq::<char>::empty());
        assert(render_step_model(m) + Seq::<char>::empty() =~= render_step_model(m));
        assert(render_steps_model(steps) + render_step_model(m) =~= render_step_model(m));
    } else {
        assert(steps.push(m)[0] == steps[0]);
        assert(steps.push(m).drop_first() =~= steps.drop_first().push(m));
        lemma_render_steps_snoc(steps.drop_first(), m);
        assert(render_step_model(steps[0]) + (render_steps_model(steps.drop_first())
            + render_step_model(m)) =~= (render_step_model(steps[0]) + render_steps_model(
            steps.drop_first(),
        )) + render_step_model(m));
    }
}

impl<'a> Step<'a> {
    /// Serializes this step as one numbered markup entry. The result is a
    /// function of the step's lines alone.
    pub fn render(&self) -> (r: String)
        ensures
            r@ == render_step_model(self.model()),
    {
        let mut r = String::new();
        r.append("1. ");
        proof {
            reveal_strlit("1. ");
            assert(r@ =~= seq!['1', '.', ' ']);
        }
        let mut i: usize = 0;
        while i < self.comments.len()
            invariant
                i <= self.comments.len(),
                r@ == seq!['1', '.', ' '] + comments_text(self.model().comments.take(i as int)),
            decreases self.comments.len() - i,
        {
            let cc = clean_comment_slice(self.comments[i]);
            proof {
                lemma_comments_text_snoc(self.model().comments.take(i as int), self.comments[i as int]@);
                assert(self.model().comments.take(i as int).push(self.comments[i as int]@)
                    =~= self.model().comments.take(i as int + 1));
                assert(seq!['1', '.', ' '] + (comments_text(self.model().comments.take(i as int))
                    + clean_comment(self.comments[i as int]@)) =~= (seq!['1', '.', ' ']
                    + comments_text(self.model().comments.take(i as int))) + clean_comment(
                    self.comments[i as int]@,
                ));
            }
            r.append(cc);
            i = i + 1;
        }
        proof {
            assert(self.model().comments.take(self.comments.len() as int) =~= self.model().comments);
        }
        r.append("\t```");
        proof {
            reveal_strlit("\t```");
            assert("\t```"@ =~= seq!['\t', '`', '`', '`']);
        }
        r.append(self.format);
        r.append("\n\t");
        proof {
            reveal_strlit("\n\t");
            assert("\n\t"@ =~= seq!['\n', '\t']);
        }
        let ghost pre = r@;
        proof {
            assert(code_text(self.model().code.take(0)) =~= Seq::<char>::empty());
            assert(pre + code_text(self.model().code.take(0)) =~= pre);
        }
        let mut j: usize = 0;
        while j < self.code.len()
            invariant
                j <= self.code.len(),
                r@ == pre + code_text(self.model().code.take(j as int)),
            decreases self.code.len() - j,
        {
            proof {
                lemma_code_text_snoc(self.model().code.take(j as int), self.code[j as int]@);
                assert(self.model().code.take(j as int).push(self.code[j as int]@)
                    =~= self.model().code.take(j as int + 1));
            }
            if j > 0 {
                r.append("\t");
                proof {
                    reveal_strlit("\t");
                    assert("\t"@ =~= seq!['\t']);
                }
            }
            r.append(self.code[j]);
            proof {
                if j == 0 {
                    assert(code_text(self.model().code.take(0)) =~= Seq::<char>::empty());
                    assert(pre + Seq::<char>::empty() =~= pre);
                    assert(r@ =~= pre + code_text(self.model().code.take(1)));
                } else {
                    assert(pre + (code_text(self.model().code.take(j as int)) + seq!['\t']
                        + self.code[j as int]@) =~= ((pre + code_text(
                        self.model().code.take(j as int),
                    )) + seq!['\t']) + self.code[j as int]@);
                }
            }
            j = j + 1;
        }
        proof {
            assert(self.model().code.take(self.code.len() as int) =~= self.model().code);
        }
        r.append("\t```\n");
        proof {
            reveal_strlit("\t```\n");
            assert("\t```\n"@ =~= seq!['\t', '`', '`', '`', '\n']);
            assert(r@ =~= render_step_model(self.model()));
        }
        r
    }
}

impl<'a> Script<'a> {
    /// Serializes the whole script: the rendered steps, concatenated in
    /// order with no separator. The shebang is not emitted.
    pub fn render(&self) -> (r: String)
        ensures
            r@ == render_steps_model(self.model().steps),
    {
        let mut r = String::new();
        proof {
            assert(render_steps_model(self.model().steps.take(0)) =~= Seq::<char>::empty());
            assert(r@ =~= render_steps_model(self.model().steps.take(0)));
        }
        let mut i: usize = 0;
        while i < self.steps.len()
            invariant
                i <= self.steps.len(),
                r@ == render_steps_model(self.model().steps.take(i as int)),
            decreases self.steps.len() - i,
        {
            let s = self.steps[i].render();
            proof {
                lemma_render_steps_snoc(self.model().steps.take(i as int), self.steps[i as int].model());
                assert(self.model().steps.take(i as int).push(self.steps[i as int].model())
                    =~= self.model().steps.take(i as int + 1));
            }
            r.append(s.as_str());
            i = i + 1;
        }
        proof {
            assert(self.model().steps.take(self.steps.len() as int) =~= self.model().steps);
        }
        r
    }
}

/// The shebang rule: when the first line of a script starts with `#!`,
/// parsing returns exactly that line as the shebang and segments the
/// remaining lines just as they would be segmented on their own; otherwise
/// no shebang is returned and every line is segmented.
pub proof fn lemma_shebang_detection(text: Seq<char>)
    ensures
        ({
            let ls = split_lines_model(text);
            if ls.len() > 0 && is_shebang(ls[0]) {
                parse_model(text).shebang == Some(ls[0]) && parse_model(text).steps == scan_steps(
                    ls.drop_first(),
                )
            } else {
                parse_model(text).shebang is None && parse_model(text).steps == scan_steps(ls)
            }
        }),
{
}

/// Counts the steps a stream of lines yields, tracking only whether the
/// step in progress has comments and whether it has code: a kept comment
/// line closes a step exactly when comments are present and code is not.
pub open spec fn count_rec(lines: Seq<Seq<char>>, in_comments: bool, in_code: bool) -> nat
    decreases lines.len(),
{
    if lines.len() == 0 {
        if in_comments {
            1
        } else {
            0
        }
    } else {
        let l = lines[0];
        let rest = lines.drop_first();
        if !keep_line(l) {
            count_rec(rest, in_comments, in_code)
        } else if is_comment(l) {
            if in_comments && !in_code {
                1 + count_rec(rest, true, false)
            } else {
                count_rec(rest, true, in_code)
            }
        } else {
            count_rec(rest, in_comments, true)
        }
    }
}

/// The number of comment-block runs the boundary rule separates.
pub open spec fn step_count(lines: Seq<Seq<char>>) -> nat {
    count_rec(lines, false, false)
}

proof fn lemma_scan_count_rec(lines: Seq<Seq<char>>, comments: Seq<Seq<char>>, code: Seq<Seq<char>>)
    ensures
        scan_rec(lines, comments, code).len() == count_rec(
            lines,
            comments.len() > 0,
            code.len() > 0,
        ),
    decreases lines.len(),
{
    if lines.len() == 0 {
    } else {
        let l = lines[0];
        let rest = lines.drop_first();
        if !keep_line(l) {
            lemma_scan_count_rec(rest, comments, code);
        } else if is_comment(l) {
            if comments.len() > 0 && code.len() == 0 {
                lemma_scan_count_rec(rest, seq![l], seq![]);
            } else {
                lemma_scan_count_rec(rest, comments.push(l), code);
            }
        } else {
            lemma_scan_count_rec(rest, comments, code.push(l));
        }
    }
}

/// The counting rule: the number of emitted steps equals the number of
/// maximal comment-block runs the boundary rule separates, a count that
/// depends only on the classification of the kept lines.
pub proof fn lemma_step_count(lines: Seq<Seq<char>>)
    ensures
        scan_steps(lines).len() == step_count(lines),
{
    lemma_scan_count_rec(lines, seq![], seq![]);
}

/// The lines with the blank ones removed.
pub open spec fn drop_blank_lines(lines: Seq<Seq<char>>) -> Seq<Seq<char>>
    decreases lines.len(),
{
    if lines.len() == 0 {
        seq![]
    } else if is_blank(lines[0]) {
        drop_blank_lines(lines.drop_first())
    } else {
        seq![lines[0]] + drop_blank_lines(lines.drop_first())
    }
}

proof fn lemma_scan_blank_rec(lines: Seq<Seq<char>>, comments: Seq<Seq<char>>, code: Seq<Seq<char>>)
    ensures
        scan_rec(lines, comments, code) == scan_rec(drop_blank_lines(lines), comments, code),
    decreases lines.len(),
{
    if lines.len() == 0 {
    } else {
        let l = lines[0];
        let rest = lines.drop_first();
        if is_blank(l) {
            lemma_scan_blank_rec(rest, comments, code);
        } else {
            let kept = seq![l] + drop_blank_lines(rest);
            assert(kept[0] == l);
            assert(kept.drop_first() =~= drop_blank_lines(rest));
            if !keep_line(l) {
                lemma_scan_blank_rec(rest, comments, code);
            } else if is_comment(l) {
                if comments.len() > 0 && code.len() == 0 {
                    lemma_scan_blank_rec(rest, seq![l], seq![]);
                } else {
                    lemma_scan_blank_rec(rest, comments.push(l), code);
                }
            } else {
                lemma_scan_blank_rec(rest, comments, code.push(l));
            }
        }
    }
}

/// The blank-line rule, second half: blank lines never cause a step
/// boundary by themselves — removing them changes no step.
pub proof fn lemma_blank_lines_no_boundary(lines: Seq<Seq<char>>)
    ensures
        scan_steps(lines) == scan_steps(drop_blank_lines(lines)),
{
    lemma_scan_blank_rec(lines, seq![], seq![]);
}

/// The lines with the skipped comments removed: comment lines that end,
/// terminator stripped, with the skip marker.
pub open spec fn drop_skipped_comments(lines: Seq<Seq<char>>) -> Seq<Seq<char>>
    decreases lines.len(),
{
    if lines.len() == 0 {
        seq![]
    } else if is_comment(lines[0]) && ends_with_skip_marker(lines[0]) {
        drop_skipped_comments(lines.drop_first())
    } else {
        seq![lines[0]] + drop_skipped_comments(lines.drop_first())
    }
}

proof fn lemma_scan_skip_rec(lines: Seq<Seq<char>>, comments: Seq<Seq<char>>, code: Seq<Seq<char>>)
    ensures
        scan_rec(lines, comments, code) == scan_rec(drop_skipped_comments(lines), comments, code),
    decreases lines.len(),
{
    if lines.len() == 0 {
    } else {
        let l = lines[0];
        let rest = lines.drop_first();
        if is_comment(l) && ends_with_skip_marker(l) {
            lemma_scan_skip_rec(rest, comments, code);
        } else {
            let kept = seq![l] + drop_skipped_comments(rest);
            assert(kept[0] == l);
            assert(kept.drop_first() =~= drop_skipped_comments(rest));
            if !keep_line(l) {
                lemma_scan_skip_rec(rest, comments, code);
            } else if is_comment(l) {
                if comments.len() > 0 && code.len() == 0 {
                    lemma_scan_skip_rec(rest, seq![l], seq![]);
                } else {
                    lemma_scan_skip_rec(rest, comments.push(l), code);
                }
            } else {
                lemma_scan_skip_rec(rest, comments, code.push(l));
            }
        }
    }
}

/// The skip-marker rule, second half: a skipped comment line is not
/// counted toward any step — removing such lines changes no step.
pub proof fn lemma_skipped_comments_not_counted(lines: Seq<Seq<char>>)
    ensures
        scan_steps(lines) == scan_steps(drop_skipped_comments(lines)),
{
    lemma_scan_skip_rec(lines, seq![], seq![]);
}

/// A well-formed step: it has at least one comment line; every comment
/// line is a kept comment, so neither blank nor carrying the skip marker;
/// and every code line is neither a comment nor blank.
pub open spec fn step_wf(m: StepModel) -> bool {
    &&& m.comments.len() > 0
    &&& forall|i: int|
        0 <= i < m.comments.len() ==> is_comment(m.comments[i]) && keep_line(m.comments[i])
    &&& forall|i: int| 0 <= i < m.code.len() ==> !is_comment(m.code[i]) && !is_blank(m.code[i])
}

proof fn lemma_scan_wf_rec(lines: Seq<Seq<char>>, comments: Seq<Seq<char>>, code: Seq<Seq<char>>)
    requires
        forall|i: int|
            0 <= i < comments.len() ==> is_comment(comments[i]) && keep_line(comments[i]),
        forall|i: int| 0 <= i < code.len() ==> !is_comment(code[i]) && !is_blank(code[i]),
    ensures
        forall|k: int|
            0 <= k < scan_rec(lines, comments, code).len() ==> step_wf(
                #[trigger] scan_rec(lines, comments, code)[k],
            ),
    decreases lines.len(),
{
    if lines.len() == 0 {
        if comments.len() > 0 {
            let m = StepModel { comments, code, format: fence_tag() };
            assert(step_wf(m));
            assert forall|k: int|
                0 <= k < scan_rec(lines, comments, code).len() implies step_wf(
                #[trigger] scan_rec(lines, comments, code)[k],
            ) by {
                assert(scan_rec(lines, comments, code)[k] == m);
            }
        }
    } else {
        let l = lines[0];
        let rest = lines.drop_first();
        if !keep_line(l) {
            lemma_scan_wf_rec(rest, comments, code);
            assert forall|k: int|
                0 <= k < scan_rec(lines, comments, code).len() implies step_wf(
                #[trigger] scan_rec(lines, comments, code)[k],
            ) by {
                assert(scan_rec(lines, comments, code)[k] == scan_rec(rest, comments, code)[k]);
            }
        } else if is_comment(l) {
            if comments.len() > 0 && code.len() == 0 {
                let first = StepModel { comments, code, format: fence_tag() };
                lemma_scan_wf_rec(rest, seq![l], seq![]);
                assert forall|k: int|
                    0 <= k < scan_rec(lines, comments, code).len() implies step_wf(
                    #[trigger] scan_rec(lines, comments, code)[k],
                ) by {
                    if k == 0 {
                        assert(scan_rec(lines, comments, code)[0] == first);
                    } else {
                        assert(scan_rec(lines, comments, code)[k] == scan_rec(
                            rest,
                            seq![l],
                            seq![],
                        )[k - 1]);
                    }
                }
            } else {
                assert forall|i: int|
                    0 <= i < comments.push(l).len() implies is_comment(comments.push(l)[i])
                    && keep_line(comments.push(l)[i]) by {
                    if i < comments.len() {
                        assert(comments.push(l)[i] == comments[i]);
                    } else {
                        assert(comments.push(l)[i] == l);
                    }
                }
                lemma_scan_wf_rec(rest, comments.push(l), code);
                assert forall|k: int|
                    0 <= k < scan_rec(lines, comments, code).len() implies step_wf(
                    #[trigger] scan_rec(lines, comments, code)[k],
                ) by {
                    assert(scan_rec(lines, comments, code)[k] == scan_rec(
                        rest,
                        comments.push(l),
                        code,
                    )[k]);
                }
            }
        } else {
            assert forall|i: int|
                0 <= i < code.push(l).len() implies !is_comment(code.push(l)[i]) && !is_blank(
                code.push(l)[i],
            ) by {
                if i < code.len() {
                    assert(code.push(l)[i] == code[i]);
                } else {
                    assert(code.push(l)[i] == l);
                }
            }
            lemma_scan_wf_rec(rest, comments, code.push(l));
            assert forall|k: int|
                0 <= k < scan_rec(lines, comments, code).len() implies step_wf(
                #[trigger] scan_rec(lines, comments, code)[k],
            ) by {
                assert(scan_rec(lines, comments, code)[k] == scan_rec(
                    rest,
                    comments,
                    code.push(l),
                )[k]);
            }
        }
    }
}

/// Every emitted step is well formed: its comment block is never empty,
/// blank lines appear in no step's content, and a skipped comment line
/// appears in no step's content.
pub proof fn lemma_scan_steps_wf(lines: Seq<Seq<char>>)
    ensures
        forall|k: int|
            0 <= k < scan_steps(lines).len() ==> step_wf(#[trigger] scan_steps(lines)[k]),
{
    lemma_scan_wf_rec(lines, seq![], seq![]);
}

/// Rendering is a pure function of the step sequence: two scripts whose
/// steps agree render to identical text, however they were produced.
pub proof fn lemma_render_pure(a: ScriptModel, b: ScriptModel)
    requires
        a.steps == b.steps,
    ensures
        render_steps_model(a.steps) == render_steps_model(b.steps),
{
}

} // verus!
