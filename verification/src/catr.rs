//! The cat clone: stream lines verbatim, or number them.
//!
//! Three modes: plain streaming, numbering every line, and numbering only
//! the non-blank lines. The numbering counter starts at one and carries
//! across all sources of the invocation; a source that failed to open
//! contributes a warning and nothing to the output or the counter.

use vstd::prelude::*;
use vstd::string::*;

use crate::numfmt::numbered;
use crate::numfmt::format_numbered;
use crate::source::Source;
use crate::source::views;
use crate::source::warnings_of;
use crate::source::format_warning;

verus! {

/// The validated configuration of one cat invocation.
#[derive(Debug)]
pub struct Config {
    pub files: Vec<String>,
    pub number_lines: bool,
    pub number_nonblank_lines: bool,
}

/// The lines a source contributes: its content if it opened, nothing if it
/// failed.
pub open spec fn src_lines(s: Source<Vec<String>>) -> Seq<Seq<char>> {
    match s.data {
        Ok(v) => views(v@),
        Err(_) => Seq::empty(),
    }
}

/// Plain mode: the lines of all opened sources, in order, unmodified.
pub open spec fn plain_out(srcs: Seq<Source<Vec<String>>>) -> Seq<Seq<char>>
    decreases srcs.len(),
{
    if srcs.len() == 0 {
        Seq::empty()
    } else {
        plain_out(srcs.drop_last()) + src_lines(srcs.last())
    }
}

/// The lines numbered `start + 1`, `start + 2`, ... in order, each as a
/// width-six number field, a tab, and the content.
pub open spec fn numbered_lines(ls: Seq<Seq<char>>, start: nat) -> Seq<Seq<char>>
    decreases ls.len(),
{
    if ls.len() == 0 {
        Seq::empty()
    } else {
        numbered_lines(ls.drop_last(), start) + seq![numbered(start + ls.len(), ls.last())]
    }
}

/// The total number of lines the opened sources contribute.
pub open spec fn total_lines(srcs: Seq<Source<Vec<String>>>) -> nat
    decreases srcs.len(),
{
    if srcs.len() == 0 {
        0
    } else {
        total_lines(srcs.drop_last()) + src_lines(srcs.last()).len()
    }
}

/// Number-all mode: each source's lines numbered from one past the count of
/// all lines of the sources before it.
pub open spec fn number_all_out(srcs: Seq<Source<Vec<String>>>) -> Seq<Seq<char>>
    decreases srcs.len(),
{
    if srcs.len() == 0 {
        Seq::empty()
    } else {
        number_all_out(srcs.drop_last()) + numbered_lines(
            src_lines(srcs.last()),
            total_lines(srcs.drop_last()),
        )
    }
}

/// How many of the lines are non-blank.
pub open spec fn nb_count(ls: Seq<Seq<char>>) -> nat
    decreases ls.len(),
{
    if ls.len() == 0 {
        0
    } else {
        nb_count(ls.drop_last()) + if ls.last().len() == 0 {
            0
        } else {
            1 as nat
        }
    }
}

/// The lines with only the non-blank ones numbered, counting from `start`:
/// a blank line stays a bare blank line, a non-blank line gets the next
/// number.
pub open spec fn nb_numbered_lines(ls: Seq<Seq<char>>, start: nat) -> Seq<Seq<char>>
    decreases ls.len(),
{
    if ls.len() == 0 {
        Seq::empty()
    } else {
        nb_numbered_lines(ls.drop_last(), start) + if ls.last().len() == 0 {
            seq![Seq::<char>::empty()]
        } else {
            seq![numbered(start + nb_count(ls), ls.last())]
        }
    }
}

/// The total number of non-blank lines the opened sources contribute.
pub open spec fn total_nb(srcs: Seq<Source<Vec<String>>>) -> nat
    decreases srcs.len(),
{
    if srcs.len() == 0 {
        0
    } else {
        total_nb(srcs.drop_last()) + nb_count(src_lines(srcs.last()))
    }
}

/// Number-non-blank mode: each source's non-blank lines numbered from one
/// past the count of non-blank lines of the sources before it.
pub open spec fn number_nonblank_out(srcs: Seq<Source<Vec<String>>>) -> Seq<Seq<char>>
    decreases srcs.len(),
{
    if srcs.len() == 0 {
        Seq::empty()
    } else {
        number_nonblank_out(srcs.drop_last()) + nb_numbered_lines(
            src_lines(srcs.last()),
            total_nb(srcs.drop_last()),
        )
    }
}

/// Everything the tool writes to standard output, by mode.
pub open spec fn cat_out(
    number_lines: bool,
    number_nonblank_lines: bool,
    srcs: Seq<Source<Vec<String>>>,
) -> Seq<Seq<char>> {
    if number_lines {
        number_all_out(srcs)
    } else if number_nonblank_lines {
        number_nonblank_out(srcs)
    } else {
        plain_out(srcs)
    }
}

/// A prefix of the sources contributes at most as many lines as all of them.
proof fn lemma_total_lines_take(srcs: Seq<Source<Vec<String>>>, i: int)
    requires
        0 <= i <= srcs.len(),
    ensures
        total_lines(srcs.take(i)) <= total_lines(srcs),
    decreases srcs.len() - i,
{
    if i < srcs.len() {
        assert(srcs.take(i + 1).drop_last() =~= srcs.take(i));
        lemma_total_lines_take(srcs, i + 1);
    } else {
        assert(srcs.take(i) =~= srcs);
    }
}

/// A prefix of the sources contributes at most as many non-blank lines as
/// all of them.
proof fn lemma_total_nb_take(srcs: Seq<Source<Vec<String>>>, i: int)
    requires
        0 <= i <= srcs.len(),
    ensures
        total_nb(srcs.take(i)) <= total_nb(srcs),
    decreases srcs.len() - i,
{
    if i < srcs.len() {
        assert(srcs.take(i + 1).drop_last() =~= srcs.take(i));
        lemma_total_nb_take(srcs, i + 1);
    } else {
        assert(srcs.take(i) =~= srcs);
    }
}

/// A prefix of the lines holds at most as many non-blank lines as all of
/// them.
proof fn lemma_nb_count_take(ls: Seq<Seq<char>>, j: int)
    requires
        0 <= j <= ls.len(),
    ensures
        nb_count(ls.take(j)) <= nb_count(ls),
    decreases ls.len() - j,
{
    if j < ls.len() {
        assert(ls.take(j + 1).drop_last() =~= ls.take(j));
        lemma_nb_count_take(ls, j + 1);
    } else {
        assert(ls.take(j) =~= ls);
    }
}

/// What parsing the raw argument tokens yields, one token at a time:
/// `-n`/`--number` numbers all lines, `-b`/`--number-nonblank` numbers only
/// non-blank lines, any other token that starts with a dash and is longer
/// than one character is rejected, everything else is an input name. At the
/// end the two numbering flags must not both be set, and an empty input
/// list defaults to standard input alone.
pub open spec fn parse_args(
    args: Seq<Seq<char>>,
    files: Seq<Seq<char>>,
    n: bool,
    b: bool,
) -> Result<(Seq<Seq<char>>, bool, bool), Seq<char>>
    decreases args.len(),
{
    if args.len() == 0 {
        if n && b {
            Err("--number and --number-nonblank are mutually exclusive"@)
        } else if files.len() == 0 {
            Ok((seq!["-"@], n, b))
        } else {
            Ok((files, n, b))
        }
    } else if args[0] == "-n"@ || args[0] == "--number"@ {
        parse_args(args.drop_first(), files, true, b)
    } else if args[0] == "-b"@ || args[0] == "--number-nonblank"@ {
        parse_args(args.drop_first(), files, n, true)
    } else if args[0].len() >= 2 && args[0][0] == '-' {
        Err("unrecognized option: "@ + args[0])
    } else {
        parse_args(args.drop_first(), files.push(args[0]), n, b)
    }
}

/// The result of parsing a full raw argument list.
pub open spec fn parsed(args: Seq<Seq<char>>) -> Result<(Seq<Seq<char>>, bool, bool), Seq<char>> {
    parse_args(args, Seq::empty(), false, false)
}

/// Parses the raw argument tokens (the program name excluded) into a
/// configuration, or reports the first offending token or the flag
/// conflict.
pub fn get_args(args: &Vec<String>) -> (r: Result<Config, String>)
    ensures
        (match r {
            Ok(c) => parsed(views(args@)) == Ok::<(Seq<Seq<char>>, bool, bool), Seq<char>>(
                (views(c.files@), c.number_lines, c.number_nonblank_lines),
            ) && !(c.number_lines && c.number_nonblank_lines),
            Err(e) => parsed(views(args@)) == Err::<(Seq<Seq<char>>, bool, bool), Seq<char>>(e@),
        }),
{
    let ghost av = views(args@);
    let flag_n = String::from_str("-n");
    let flag_n_long = String::from_str("--number");
    let flag_b = String::from_str("-b");
    let flag_b_long = String::from_str("--number-nonblank");
    let mut files: Vec<String> = Vec::new();
    let mut n = false;
    let mut b = false;
    let mut i: usize = 0;
    proof {
        assert(av.skip(0) =~= av);
        assert(views(files@) =~= Seq::<Seq<char>>::empty());
    }
    while i < args.len()
        invariant
            i <= args.len(),
            av == views(args@),
            flag_n@ == "-n"@,
            flag_n_long@ == "--number"@,
            flag_b@ == "-b"@,
            flag_b_long@ == "--number-nonblank"@,
            parsed(av) == parse_args(av.skip(i as int), views(files@), n, b),
        decreases args.len() - i,
    {
        proof {
            assert(av.skip(i as int)[0] == av[i as int]);
            assert(av.skip(i as int).drop_first() =~= av.skip(i + 1 as int));
        }
        let a = &args[i];
        if a.eq(&flag_n) || a.eq(&flag_n_long) {
            n = true;
        } else if a.eq(&flag_b) || a.eq(&flag_b_long) {
            b = true;
        } else {
            let len = a.as_str().unicode_len();
            if len >= 2 && a.as_str().get_char(0) == '-' {
                let mut e = String::from_str("unrecognized option: ");
                e.append(a.as_str());
                return Err(e);
            } else {
                let ghost before = views(files@);
                files.push(a.clone());
                proof {
                    assert(views(files@) =~= before.push(av[i as int]));
                }
            }
        }
        i += 1;
    }
    proof {
        assert(av.skip(args@.len() as int) =~= Seq::<Seq<char>>::empty());
    }
    if n && b {
        return Err(String::from_str("--number and --number-nonblank are mutually exclusive"));
    }
    if files.len() == 0 {
        files.push(String::from_str("-"));
        proof {
            assert(views(files@) =~= seq!["-"@]);
        }
    }
    Ok(Config { files, number_lines: n, number_nonblank_lines: b })
}

/// Numbering keeps the line count.
pub proof fn lemma_numbered_lines_len(ls: Seq<Seq<char>>, start: nat)
    ensures
        numbered_lines(ls, start).len() == ls.len(),
    decreases ls.len(),
{
    if ls.len() > 0 {
        lemma_numbered_lines_len(ls.drop_last(), start);
    }
}

/// In number-all mode the lines keep their order and are numbered
/// consecutively: counting from `start`, the line at position `i` comes out
/// as the width-six field of `start + i + 1`, a tab, and the unchanged
/// content.
pub proof fn lemma_numbered_lines_index(ls: Seq<Seq<char>>, start: nat, i: int)
    requires
        0 <= i < ls.len(),
    ensures
        numbered_lines(ls, start).len() == ls.len(),
        numbered_lines(ls, start)[i] == numbered((start + i + 1) as nat, ls[i]),
    decreases ls.len(),
{
    lemma_numbered_lines_len(ls, start);
    lemma_numbered_lines_len(ls.drop_last(), start);
    if i < ls.len() - 1 {
        lemma_numbered_lines_index(ls.drop_last(), start, i);
        assert(ls.drop_last()[i] == ls[i]);
    }
}

/// Numbering only the non-blank lines keeps the line count.
pub proof fn lemma_nb_numbered_lines_len(ls: Seq<Seq<char>>, start: nat)
    ensures
        nb_numbered_lines(ls, start).len() == ls.len(),
    decreases ls.len(),
{
    if ls.len() > 0 {
        lemma_nb_numbered_lines_len(ls.drop_last(), start);
    }
}

/// In number-non-blank mode the lines keep their order: a blank line at
/// position `i` comes out as a bare blank line, and a non-blank one is
/// numbered by how many non-blank lines there are up to and including it,
/// counting from `start` — so the non-blank lines get `start + 1`,
/// `start + 2`, ... in order of appearance.
pub proof fn lemma_nb_numbered_lines_index(ls: Seq<Seq<char>>, start: nat, i: int)
    requires
        0 <= i < ls.len(),
    ensures
        nb_numbered_lines(ls, start).len() == ls.len(),
        ls[i].len() == 0 ==> nb_numbered_lines(ls, start)[i] == Seq::<char>::empty(),
        ls[i].len() != 0 ==> nb_numbered_lines(ls, start)[i] == numbered(
            start + nb_count(ls.take(i + 1)),
            ls[i],
        ),
    decreases ls.len(),
{
    lemma_nb_numbered_lines_len(ls, start);
    lemma_nb_numbered_lines_len(ls.drop_last(), start);
    if i < ls.len() - 1 {
        lemma_nb_numbered_lines_index(ls.drop_last(), start, i);
        assert(ls.drop_last()[i] == ls[i]);
        assert(ls.drop_last().take(i + 1) =~= ls.take(i + 1));
    } else {
        assert(ls.take(i + 1) =~= ls);
    }
}

/// The numbering counter carries across sources in number-all mode: source
/// `i`'s lines are numbered starting one past the total count of lines of
/// all sources before it.
pub proof fn lemma_number_all_out_at(srcs: Seq<Source<Vec<String>>>, i: int)
    requires
        0 <= i < srcs.len(),
    ensures
        number_all_out(srcs.take(i + 1)) == number_all_out(srcs.take(i)) + numbered_lines(
            src_lines(srcs[i]),
            total_lines(srcs.take(i)),
        ),
{
    assert(srcs.take(i + 1).drop_last() =~= srcs.take(i));
    assert(srcs.take(i + 1).last() == srcs[i]);
}

/// The numbering counter carries across sources in number-non-blank mode:
/// source `i`'s non-blank lines are numbered starting one past the total
/// count of non-blank lines of all sources before it.
pub proof fn lemma_number_nonblank_out_at(srcs: Seq<Source<Vec<String>>>, i: int)
    requires
        0 <= i < srcs.len(),
    ensures
        number_nonblank_out(srcs.take(i + 1)) == number_nonblank_out(srcs.take(i))
            + nb_numbered_lines(src_lines(srcs[i]), total_nb(srcs.take(i))),
{
    assert(srcs.take(i + 1).drop_last() =~= srcs.take(i));
    assert(srcs.take(i + 1).last() == srcs[i]);
}

/// Streams every line of every opened source unmodified; a source that
/// failed to open yields a warning instead.
pub fn echo(sources: &Vec<Source<Vec<String>>>) -> (r: (Vec<String>, Vec<String>))
    ensures
        views(r.0@) == plain_out(sources@),
        views(r.1@) == warnings_of(sources@),
{
    let mut out: Vec<String> = Vec::new();
    let mut warns: Vec<String> = Vec::new();
    let mut i: usize = 0;
    proof {
        assert(views(out@) =~= plain_out(sources@.take(0)));
        assert(views(warns@) =~= warnings_of(sources@.take(0)));
    }
    while i < sources.len()
        invariant
            i <= sources.len(),
            views(out@) == plain_out(sources@.take(i as int)),
            views(warns@) == warnings_of(sources@.take(i as int)),
        decreases sources.len() - i,
    {
        let s = &sources[i];
        proof {
            assert(sources@.take(i + 1 as int).drop_last() =~= sources@.take(i as int));
            assert(sources@.take(i + 1 as int).last() == sources@[i as int]);
        }
        match &s.data {
            Ok(v) => {
                let ghost lv = src_lines(sources@[i as int]);
                let mut j: usize = 0;
                proof {
                    assert(lv.take(0) =~= Seq::<Seq<char>>::empty());
                    assert(views(out@) + lv.take(0) =~= views(out@));
                }
                while j < v.len()
                    invariant
                        j <= v.len(),
                        lv == views(v@),
                        views(out@) == plain_out(sources@.take(i as int)) + lv.take(j as int),
                    decreases v.len() - j,
                {
                    let ghost before = views(out@);
                    out.push(v[j].clone());
                    proof {
                        assert(views(out@) =~= before.push(lv[j as int]));
                        assert(lv.take(j + 1 as int) =~= lv.take(j as int).push(lv[j as int]));
                        assert(before.push(lv[j as int]) =~= plain_out(sources@.take(i as int))
                            + lv.take(j + 1 as int));
                    }
                    j += 1;
                }
                proof {
                    assert(lv.take(v@.len() as int) =~= lv);
                }
            },
            Err(e) => {
                let ghost before = views(warns@);
                let w = format_warning(s.name.as_str(), e.as_str());
                warns.push(w);
                proof {
                    assert(views(warns@) =~= before.push(
                        crate::source::warning(s.name@, s.data->Err_0@),
                    ));
                }
            },
        }
        i += 1;
    }
    proof {
        assert(sources@.take(sources@.len() as int) =~= sources@);
    }
    (out, warns)
}

/// Numbers every line of every opened source, the counter starting at one
/// and carrying across sources; a source that failed to open yields a
/// warning and leaves the counter alone.
pub fn echo_number(sources: &Vec<Source<Vec<String>>>) -> (r: (Vec<String>, Vec<String>))
    requires
        total_lines(sources@) <= usize::MAX,
    ensures
        views(r.0@) == number_all_out(sources@),
        views(r.1@) == warnings_of(sources@),
{
    let mut out: Vec<String> = Vec::new();
    let mut warns: Vec<String> = Vec::new();
    let mut acc: usize = 0;
    let mut i: usize = 0;
    proof {
        assert(views(out@) =~= number_all_out(sources@.take(0)));
        assert(views(warns@) =~= warnings_of(sources@.take(0)));
        assert(sources@.take(0) =~= Seq::<Source<Vec<String>>>::empty());
    }
    while i < sources.len()
        invariant
            i <= sources.len(),
            total_lines(sources@) <= usize::MAX,
            acc == total_lines(sources@.take(i as int)),
            views(out@) == number_all_out(sources@.take(i as int)),
            views(warns@) == warnings_of(sources@.take(i as int)),
        decreases sources.len() - i,
    {
        let s = &sources[i];
        proof {
            assert(sources@.take(i + 1 as int).drop_last() =~= sources@.take(i as int));
            assert(sources@.take(i + 1 as int).last() == sources@[i as int]);
        }
        match &s.data {
            Ok(v) => {
                let ghost lv = src_lines(sources@[i as int]);
                proof {
                    lemma_total_lines_take(sources@, i + 1 as int);
                }
                let mut j: usize = 0;
                proof {
                    assert(lv.take(0) =~= Seq::<Seq<char>>::empty());
                    assert(numbered_lines(lv.take(0), acc as nat) =~= Seq::<Seq<char>>::empty());
                    assert(views(out@) + Seq::<Seq<char>>::empty() =~= views(out@));
                }
                while j < v.len()
                    invariant
                        j <= v.len(),
                        lv == views(v@),
                        acc + lv.len() <= usize::MAX,
                        views(out@) == number_all_out(sources@.take(i as int)) + numbered_lines(
                            lv.take(j as int),
                            acc as nat,
                        ),
                    decreases v.len() - j,
                {
                    let ghost before = views(out@);
                    let line = format_numbered(acc + j + 1, v[j].as_str());
                    out.push(line);
                    proof {
                        assert(views(out@) =~= before.push(
                            numbered((acc + j + 1) as nat, lv[j as int]),
                        ));
                        assert(lv.take(j + 1 as int).drop_last() =~= lv.take(j as int));
                        assert(lv.take(j + 1 as int).last() == lv[j as int]);
                        assert(lv.take(j + 1 as int).len() == j + 1);
                        assert(numbered_lines(lv.take(j + 1 as int), acc as nat)
                            =~= numbered_lines(lv.take(j as int), acc as nat).push(
                            numbered((acc + j + 1) as nat, lv[j as int]),
                        ));
                        assert(views(out@) =~= number_all_out(sources@.take(i as int))
                            + numbered_lines(lv.take(j + 1 as int), acc as nat));
                    }
                    j += 1;
                }
                proof {
                    assert(lv.take(v@.len() as int) =~= lv);
                }
                acc = acc + v.len();
            },
            Err(e) => {
                let ghost before = views(warns@);
                let w = format_warning(s.name.as_str(), e.as_str());
                warns.push(w);
                proof {
                    assert(views(warns@) =~= before.push(
                        crate::source::warning(s.name@, s.data->Err_0@),
                    ));
                }
            },
        }
        i += 1;
    }
    proof {
        assert(sources@.take(sources@.len() as int) =~= sources@);
    }
    (out, warns)
}

/// Numbers only the non-blank lines of every opened source, the counter
/// starting at one and carrying across sources; blank lines pass through
/// bare, and a source that failed to open yields a warning and leaves the
/// counter alone.
pub fn echo_non_blank_number(sources: &Vec<Source<Vec<String>>>) -> (r: (
    Vec<String>,
    Vec<String>,
))
    requires
        total_nb(sources@) <= usize::MAX,
    ensures
        views(r.0@) == number_nonblank_out(sources@),
        views(r.1@) == warnings_of(sources@),
{
    let mut out: Vec<String> = Vec::new();
    let mut warns: Vec<String> = Vec::new();
    let mut acc: usize = 0;
    let mut i: usize = 0;
    proof {
        assert(views(out@) =~= number_nonblank_out(sources@.take(0)));
        assert(views(warns@) =~= warnings_of(sources@.take(0)));
        assert(sources@.take(0) =~= Seq::<Source<Vec<String>>>::empty());
    }
    while i < sources.len()
        invariant
            i <= sources.len(),
            total_nb(sources@) <= usize::MAX,
            acc == total_nb(sources@.take(i as int)),
            views(out@) == number_nonblank_out(sources@.take(i as int)),
            views(warns@) == warnings_of(sources@.take(i as int)),
        decreases sources.len() - i,
    {
        let s = &sources[i];
        proof {
            assert(sources@.take(i + 1 as int).drop_last() =~= sources@.take(i as int));
            assert(sources@.take(i + 1 as int).last() == sources@[i as int]);
        }
        match &s.data {
            Ok(v) => {
                let ghost lv = src_lines(sources@[i as int]);
                proof {
                    lemma_total_nb_take(sources@, i + 1 as int);
                }
                let mut j: usize = 0;
                let mut k: usize = 0;
                proof {
                    assert(lv.take(0) =~= Seq::<Seq<char>>::empty());
                    assert(nb_numbered_lines(lv.take(0), acc as nat)
                        =~= Seq::<Seq<char>>::empty());
                    assert(views(out@) + Seq::<Seq<char>>::empty() =~= views(out@));
                }
                while j < v.len()
                    invariant
                        j <= v.len(),
                        lv == views(v@),
                        acc + nb_count(lv) <= usize::MAX,
                        k == nb_count(lv.take(j as int)),
                        views(out@) == number_nonblank_out(sources@.take(i as int))
                            + nb_numbered_lines(lv.take(j as int), acc as nat),
                    decreases v.len() - j,
                {
                    let ghost before = views(out@);
                    proof {
                        assert(lv.take(j + 1 as int).drop_last() =~= lv.take(j as int));
                        assert(lv.take(j + 1 as int).last() == lv[j as int]);
                        lemma_nb_count_take(lv, j + 1 as int);
                    }
                    if v[j].as_str().unicode_len() == 0 {
                        out.push(String::new());
                        proof {
                            assert(views(out@) =~= before.push(Seq::<char>::empty()));
                            assert(nb_numbered_lines(lv.take(j + 1 as int), acc as nat)
                                =~= nb_numbered_lines(lv.take(j as int), acc as nat).push(
                                Seq::<char>::empty(),
                            ));
                            assert(views(out@) =~= number_nonblank_out(sources@.take(i as int))
                                + nb_numbered_lines(lv.take(j + 1 as int), acc as nat));
                        }
                    } else {
                        k = k + 1;
                        let line = format_numbered(acc + k, v[j].as_str());
                        out.push(line);
                        proof {
                            assert(views(out@) =~= before.push(
                                numbered((acc + k) as nat, lv[j as int]),
                            ));
                            assert(nb_numbered_lines(lv.take(j + 1 as int), acc as nat)
                                =~= nb_numbered_lines(lv.take(j as int), acc as nat).push(
                                numbered((acc + k) as nat, lv[j as int]),
                            ));
                            assert(views(out@) =~= number_nonblank_out(sources@.take(i as int))
                                + nb_numbered_lines(lv.take(j + 1 as int), acc as nat));
                        }
                    }
                    j += 1;
                }
                proof {
                    assert(lv.take(v@.len() as int) =~= lv);
                }
                acc = acc + k;
            },
            Err(e) => {
                let ghost before = views(warns@);
                let w = format_warning(s.name.as_str(), e.as_str());
                warns.push(w);
                proof {
                    assert(views(warns@) =~= before.push(
                        crate::source::warning(s.name@, s.data->Err_0@),
                    ));
                }
            },
        }
        i += 1;
    }
    proof {
        assert(sources@.take(sources@.len() as int) =~= sources@);
    }
    (out, warns)
}

/// Runs the cat clone on the resolved sources: numbers every line, numbers
/// only the non-blank lines, or streams them bare, as the configuration
/// asks. Returns the output lines and the warning lines.
pub fn run(config: &Config, sources: &Vec<Source<Vec<String>>>) -> (r: (Vec<String>, Vec<String>))
    requires
        config.number_lines ==> total_lines(sources@) <= usize::MAX,
        config.number_nonblank_lines ==> total_nb(sources@) <= usize::MAX,
    ensures
        views(r.0@) == cat_out(config.number_lines, config.number_nonblank_lines, sources@),
        views(r.1@) == warnings_of(sources@),
{
    if config.number_lines {
        echo_number(sources)
    } else if config.number_nonblank_lines {
        echo_non_blank_number(sources)
    } else {
        echo(sources)
    }
}

} // verus!
