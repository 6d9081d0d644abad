//! Turns annotated shell scripts into numbered tutorial entries.
//!
//! A script is segmented into steps: each step is a run of comment lines
//! followed by the executable lines they introduce. Steps render as a
//! numbered markup list entry with a fenced code block. A host document
//! can pull a rendered script in through a directive line.

pub mod script;

use vstd::prelude::*;
use vstd::string::StrSliceExecFns;
use vstd::string::StringExecFns;

verus! {

use crate::script::Script;
use crate::script::parse;
use crate::script::parse_model;
use crate::script::render_steps_model;
use crate::script::split_lines;
use crate::script::split_lines_model;
use crate::script::str_eq;

/// The tutorial preprocessor: segments annotated scripts and splices the
/// rendered result into host documents.
pub struct BashTutorial;

impl BashTutorial {
    pub fn new() -> (r: BashTutorial) {
        BashTutorial
    }
}

/// The opening of a directive line.
pub open spec fn dir_prefix() -> Seq<char> {
    seq!['{', '{', '#', 't', 'u', 't', 'o', 'r', 'i', 'a', 'l', ' ']
}

/// The closing of a directive line.
pub open spec fn dir_suffix() -> Seq<char> {
    seq!['}', '}']
}

/// A document line that requests inclusion of a rendered script: the whole
/// line opens with the directive prefix and closes with the suffix.
pub open spec fn is_directive(l: Seq<char>) -> bool {
    l.len() >= 12 && l.take(12) == dir_prefix() && l.skip(l.len() - 2) == dir_suffix()
}

pub open spec fn trim_dir_prefix(l: Seq<char>) -> Seq<char>
    decreases l.len(),
{
    if l.len() >= 12 && l.take(12) == dir_prefix() {
        trim_dir_prefix(l.skip(12))
    } else {
        l
    }
}

pub open spec fn trim_dir_suffix(l: Seq<char>) -> Seq<char>
    decreases l.len(),
{
    if l.len() >= 2 && l.skip(l.len() - 2) == dir_suffix() {
        trim_dir_suffix(l.take(l.len() - 2))
    } else {
        l
    }
}

/// The script path a directive line names: every copy of the prefix is
/// trimmed from the front, then every copy of the suffix from the back.
pub open spec fn directive_target(l: Seq<char>) -> Seq<char> {
    trim_dir_suffix(trim_dir_prefix(l))
}

/// A document line as the document splitter hands it out: one trailing
/// newline removed, and a carriage return directly before it with it.
pub open spec fn strip_one_eol(l: Seq<char>) -> Seq<char> {
    if l.len() > 0 && l.last() == '\n' {
        let m = l.drop_last();
        if m.len() > 0 && m.last() == '\r' {
            m.drop_last()
        } else {
            m
        }
    } else {
        l
    }
}

/// The lines of a host document, terminators stripped.
pub open spec fn doc_lines(s: Seq<char>) -> Seq<Seq<char>> {
    split_lines_model(s).map_values(|l: Seq<char>| strip_one_eol(l))
}

/// The first script whose path equals the key, if any.
pub open spec fn lookup_script(
    scripts: Seq<(Seq<char>, Seq<char>)>,
    key: Seq<char>,
) -> Option<Seq<char>>
    decreases scripts.len(),
{
    if scripts.len() == 0 {
        None
    } else if scripts[0].0 == key {
        Some(scripts[0].1)
    } else {
        lookup_script(scripts.drop_first(), key)
    }
}

/// What one document line becomes: a directive line whose script is at
/// hand turns into the rendered script; every other line passes through
/// unchanged, a directive naming an unknown path among them.
pub open spec fn subst_line(l: Seq<char>, scripts: Seq<(Seq<char>, Seq<char>)>) -> Seq<char> {
    if is_directive(l) {
        match lookup_script(scripts, directive_target(l)) {
            Some(t) => render_steps_model(parse_model(t).steps),
            None => l,
        }
    } else {
        l
    }
}

/// Document lines rejoined with single newlines.
pub open spec fn join_nl(ls: Seq<Seq<char>>) -> Seq<char>
    decreases ls.len(),
{
    if ls.len() == 0 {
        Seq::empty()
    } else if ls.len() == 1 {
        ls[0]
    } else {
        ls[0] + seq!['\n'] + join_nl(ls.drop_first())
    }
}

/// What `add_tutorial` returns: each document line substituted, the lines
/// rejoined with newlines.
pub open spec fn add_tutorial_model(
    content: Seq<char>,
    scripts: Seq<(Seq<char>, Seq<char>)>,
) -> Seq<char> {
    join_nl(doc_lines(content).map_values(|l: Seq<char>| subst_line(l, scripts)))
}

pub proof fn lemma_join_nl_snoc(ls: Seq<Seq<char>>, l: Seq<char>)
    ensures
        ls.len() == 0 ==> join_nl(ls.push(l)) == l,
        ls.len() > 0 ==> join_nl(ls.push(l)) == join_nl(ls) + seq!['\n'] + l,
    decreases ls.len(),
{
    if ls.len() == 0 {
        assert(ls.push(l)[0] == l);
    } else if ls.len() == 1 {
        assert(ls.push(l)[0] == ls[0]);
        assert(ls.push(l).drop_first() =~= seq![l]);
        assert(join_nl(seq![l]) == l);
    } else {
        assert(ls.push(l)[0] == ls[0]);
        assert(ls.push(l).drop_first() =~= ls.drop_first().push(l));
        lemma_join_nl_snoc(ls.drop_first(), l);
        assert(ls[0] + seq!['\n'] + (join_nl(ls.drop_first()) + seq!['\n'] + l) =~= (ls[0]
            + seq!['\n'] + join_nl(ls.drop_first())) + seq!['\n'] + l);
    }
}

fn has_dir_prefix(t: &str) -> (r: bool)
    ensures
        r == (t@.len() >= 12 && t@.take(12) == dir_prefix()),
{
    let n = t.unicode_len();
    if n < 12 {
        return false;
    }
    let p = t.substring_char(0, 12);
    let r = str_eq(p, "{{#tutorial ");
    proof {
        reveal_strlit("{{#tutorial ");
        assert("{{#tutorial "@ =~= dir_prefix());
        assert(p@ =~= t@.take(12));
    }
    r
}

fn has_dir_suffix(t: &str) -> (r: bool)
    ensures
        r == (t@.len() >= 2 && t@.skip(t@.len() - 2) == dir_suffix()),
{
    let n = t.unicode_len();
    if n < 2 {
        return false;
    }
    let p = t.substring_char(n - 2, n);
    let r = str_eq(p, "}}");
    proof {
        reveal_strlit("}}");
        assert("}}"@ =~= dir_suffix());
        assert(p@ =~= t@.skip(t@.len() - 2));
    }
    r
}

fn is_directive_line(l: &str) -> (r: bool)
    ensures
        r == is_directive(l@),
{
    if !has_dir_prefix(l) {
        return false;
    }
    has_dir_suffix(l)
}

/// The path a directive line names, or nothing for any other line.
pub fn directive_path<'a>(line: &'a str) -> (r: Option<&'a str>)
    ensures
        match r {
            Some(p) => is_directive(line@) && p@ == directive_target(line@),
            None => !is_directive(line@),
        },
{
    if !is_directive_line(line) {
        return None;
    }
    let mut t: &'a str = line;
    while has_dir_prefix(t)
        invariant
            trim_dir_prefix(line@) == trim_dir_prefix(t@),
        decreases t@.len(),
    {
        let n = t.unicode_len();
        let next = t.substring_char(12, n);
        proof {
            assert(next@ =~= t@.skip(12));
        }
        t = next;
    }
    proof {
        assert(trim_dir_prefix(t@) == t@);
        assert(trim_dir_suffix(trim_dir_prefix(line@)) == trim_dir_suffix(t@));
    }
    while has_dir_suffix(t)
        invariant
            trim_dir_suffix(trim_dir_prefix(line@)) == trim_dir_suffix(t@),
        decreases t@.len(),
    {
        let n = t.unicode_len();
        let next = t.substring_char(0, n - 2);
        proof {
            assert(next@ =~= t@.take(t@.len() - 2));
        }
        t = next;
    }
    proof {
        assert(trim_dir_suffix(t@) == t@);
    }
    Some(t)
}

fn lookup_exec<'s>(scripts: &'s Vec<(String, String)>, key: &str) -> (r: Option<&'s String>)
    ensures
        match r {
            Some(t) => lookup_script(scripts.deep_view(), key@) == Some(t@),
            None => lookup_script(scripts.deep_view(), key@) is None,
        },
{
    let ghost sv = scripts.deep_view();
    let mut i: usize = 0;
    proof {
        assert(sv.skip(0) =~= sv);
    }
    while i < scripts.len()
        invariant
            i <= scripts.len(),
            sv == scripts.deep_view(),
            lookup_script(sv, key@) == lookup_script(sv.skip(i as int), key@),
        decreases scripts.len() - i,
    {
        proof {
            assert(sv.skip(i as int)[0] == sv[i as int]);
            assert(sv[i as int] == (scripts@[i as int].0@, scripts@[i as int].1@));
            assert(sv.skip(i as int).drop_first() =~= sv.skip(i as int + 1));
        }
        if str_eq(scripts[i].0.as_str(), key) {
            return Some(&scripts[i].1);
        }
        i = i + 1;
    }
    proof {
        assert(sv.skip(scripts.len() as int).len() == 0);
    }
    None
}

fn strip_line_slice<'a>(l: &'a str) -> (r: &'a str)
    ensures
        r@ == strip_one_eol(l@),
{
    let n = l.unicode_len();
    if n > 0 && l.get_char(n - 1) == '\n' {
        if n > 1 && l.get_char(n - 2) == '\r' {
            let r = l.substring_char(0, n - 2);
            proof {
                assert(l@.drop_last() =~= l@.take(n as int - 1));
                assert(l@.drop_last().drop_last() =~= l@.take(n as int - 2));
                assert(l@.drop_last().last() == l@[n as int - 2]);
                assert(r@ =~= l@.take(n as int - 2));
            }
            r
        } else {
            let r = l.substring_char(0, n - 1);
            proof {
                assert(l@.drop_last() =~= l@.take(n as int - 1));
                if n > 1 {
                    assert(l@.drop_last().last() == l@[n as int - 2]);
                }
                assert(r@ =~= l@.take(n as int - 1));
            }
            r
        }
    } else {
        l
    }
}

/// Splices rendered scripts into a host document. Each line naming a
/// directive whose path is among `scripts` is replaced by the rendered
/// parse of that script's text; every other line, a directive with an
/// unknown path among them, passes through unchanged. Lines are rejoined
/// with newlines.
pub fn add_tutorial(content: &str, scripts: &Vec<(String, String)>) -> (r: String)
    ensures
        r@ == add_tutorial_model(content@, scripts.deep_view()),
{
    let raw = split_lines(content);
    let ghost sv = scripts.deep_view();
    let ghost dls = doc_lines(content@);
    let ghost subbed = dls.map_values(|l: Seq<char>| subst_line(l, sv));
    let mut out = String::new();
    let mut i: usize = 0;
    proof {
        assert(join_nl(subbed.take(0)) =~= Seq::<char>::empty());
        assert(out@ =~= join_nl(subbed.take(0)));
    }
    while i < raw.len()
        invariant
            i <= raw.len(),
            raw.deep_view() == split_lines_model(content@),
            sv == scripts.deep_view(),
            dls == doc_lines(content@),
            subbed == dls.map_values(|l: Seq<char>| subst_line(l, sv)),
            out@ == join_nl(subbed.take(i as int)),
        decreases raw.len() - i,
    {
        proof {
            assert(raw.deep_view()[i as int] == raw@[i as int]@);
            assert(dls[i as int] == strip_one_eol(raw@[i as int]@));
            assert(subbed[i as int] == subst_line(dls[i as int], sv));
            assert(subbed.take(i as int).push(subbed[i as int]) =~= subbed.take(i as int + 1));
            lemma_join_nl_snoc(subbed.take(i as int), subbed[i as int]);
        }
        if i > 0 {
            out.append("\n");
            proof {
                reveal_strlit("\n");
                assert("\n"@ =~= seq!['\n']);
            }
        }
        let ghost sep_done = out@;
        proof {
            if i > 0 {
                assert(sep_done =~= join_nl(subbed.take(i as int)) + seq!['\n']);
            }
        }
        let line = strip_line_slice(raw[i]);
        let mut handled = false;
        match directive_path(line) {
            Some(p) => {
                match lookup_exec(scripts, p) {
                    Some(t) => {
                        let sc: Script = parse(t.as_str());
                        let rend = sc.render();
                        out.append(rend.as_str());
                        handled = true;
                        proof {
                            assert(subbed[i as int] == render_steps_model(
                                parse_model(t@).steps,
                            ));
                        }
                    },
                    None => {
                    },
                }
            },
            None => {
            },
        }
        if !handled {
            out.append(line);
            proof {
                assert(subbed[i as int] == line@);
            }
        }
        proof {
            if i > 0 {
                assert(out@ =~= (join_nl(subbed.take(i as int)) + seq!['\n']) + subbed[i as int]);
                assert(join_nl(subbed.take(i as int)) + seq!['\n'] + subbed[i as int] =~= (join_nl(
                    subbed.take(i as int),
                ) + seq!['\n']) + subbed[i as int]);
            } else {
                assert(out@ =~= subbed[0]);
            }
        }
        i = i + 1;
    }
    proof {
        assert(subbed.take(raw.len() as int) =~= subbed);
    }
    out
}

} // verus!
