//! The echo clone: join argument tokens with single spaces.

use vstd::prelude::*;
use vstd::string::*;

use crate::source::views;

verus! {

/// The tokens joined with a single ASCII space between neighbours.
pub open spec fn join_spaced(ts: Seq<Seq<char>>) -> Seq<char>
    decreases ts.len(),
{
    if ts.len() == 0 {
        Seq::empty()
    } else if ts.len() == 1 {
        ts[0]
    } else {
        join_spaced(ts.drop_last()) + seq![' '] + ts.last()
    }
}

/// Everything the tool writes: the joined tokens, with a trailing newline
/// unless suppression was requested.
pub open spec fn echo_output(ts: Seq<Seq<char>>, omit_newline: bool) -> Seq<char> {
    if omit_newline {
        join_spaced(ts)
    } else {
        join_spaced(ts) + seq!['\n']
    }
}

/// Joins the tokens with single spaces and appends a newline unless
/// `omit_newline` is set.
pub fn echo(text: &Vec<String>, omit_newline: bool) -> (r: String)
    ensures
        r@ == echo_output(views(text@), omit_newline),
{
    let ghost ts = views(text@);
    let mut r = String::new();
    let mut i: usize = 0;
    while i < text.len()
        invariant
            i <= text.len(),
            ts == views(text@),
            r@ == join_spaced(ts.take(i as int)),
        decreases text.len() - i,
    {
        if i > 0 {
            proof {
                reveal_strlit(" ");
            }
            r.append(" ");
            proof {
                assert((" ")@ =~= seq![' ']);
            }
        }
        r.append(text[i].as_str());
        proof {
            assert(ts.take(i + 1 as int).drop_last() =~= ts.take(i as int));
            assert(ts.take(i + 1 as int).last() == ts[i as int]);
        }
        i += 1;
    }
    proof {
        assert(ts.take(text@.len() as int) =~= ts);
    }
    if !omit_newline {
        proof {
            reveal_strlit("\n");
        }
        r.append("\n");
        proof {
            assert(("\n")@ =~= seq!['\n']);
        }
    }
    r
}

/// The validated configuration of one echo invocation.
#[derive(Debug)]
pub struct Config {
    pub text: Vec<String>,
    pub omit_newline: bool,
}

/// What parsing the raw argument tokens yields, one token at a time:
/// `-n` suppresses the newline, any other token that starts with a dash and
/// is longer than one character is rejected, everything else is a text
/// token; at the end at least one text token must have accumulated.
pub open spec fn parse_args(
    args: Seq<Seq<char>>,
    text: Seq<Seq<char>>,
    omit: bool,
) -> Result<(Seq<Seq<char>>, bool), Seq<char>>
    decreases args.len(),
{
    if args.len() == 0 {
        if text.len() == 0 {
            Err("text is required"@)
        } else {
            Ok((text, omit))
        }
    } else if args[0] == "-n"@ {
        parse_args(args.drop_first(), text, true)
    } else if args[0].len() >= 2 && args[0][0] == '-' {
        Err("unrecognized option: "@ + args[0])
    } else {
        parse_args(args.drop_first(), text.push(args[0]), omit)
    }
}

/// The result of parsing a full raw argument list.
pub open spec fn parsed(args: Seq<Seq<char>>) -> Result<(Seq<Seq<char>>, bool), Seq<char>> {
    parse_args(args, Seq::empty(), false)
}

/// Parses the raw argument tokens (the program name excluded) into a
/// configuration, or reports the first offending token.
pub fn get_args(args: &Vec<String>) -> (r: Result<Config, String>)
    ensures
        (match r {
            Ok(c) => parsed(views(args@)) == Ok::<(Seq<Seq<char>>, bool), Seq<char>>(
                (views(c.text@), c.omit_newline),
            ),
            Err(e) => parsed(views(args@)) == Err::<(Seq<Seq<char>>, bool), Seq<char>>(e@),
        }),
{
    let ghost av = views(args@);
    let flag_n = String::from_str("-n");
    let mut text: Vec<String> = Vec::new();
    let mut omit = false;
    let mut i: usize = 0;
    proof {
        assert(av.skip(0) =~= av);
        assert(views(text@) =~= Seq::<Seq<char>>::empty());
    }
    while i < args.len()
        invariant
            i <= args.len(),
            av == views(args@),
            flag_n@ == "-n"@,
            parsed(av) == parse_args(av.skip(i as int), views(text@), omit),
        decreases args.len() - i,
    {
        proof {
            assert(av.skip(i as int)[0] == av[i as int]);
            assert(av.skip(i as int).drop_first() =~= av.skip(i + 1 as int));
        }
        let a = &args[i];
        if a.eq(&flag_n) {
            omit = true;
        } else {
            let len = a.as_str().unicode_len();
            if len >= 2 && a.as_str().get_char(0) == '-' {
                let mut e = String::from_str("unrecognized option: ");
                e.append(a.as_str());
                return Err(e);
            } else {
                let ghost before = views(text@);
                text.push(a.clone());
                proof {
                    assert(views(text@) =~= before.push(av[i as int]));
                }
            }
        }
        i += 1;
    }
    proof {
        assert(av.skip(args@.len() as int) =~= Seq::<Seq<char>>::empty());
    }
    if text.len() == 0 {
        return Err(String::from_str("text is required"));
    }
    Ok(Config { text, omit_newline: omit })
}

} // verus!
