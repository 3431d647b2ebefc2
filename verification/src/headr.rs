//! The head clone: emit only the first lines or bytes of each source.

use vstd::prelude::*;
use vstd::string::*;

use crate::source::Chunk;
use crate::source::PieceView;
use crate::source::Source;
use crate::source::chunk_views;
use crate::source::views;
use crate::source::warnings_of;
use crate::source::format_warning;

verus! {

/// The validated configuration of one head invocation.
#[derive(Debug)]
pub struct Config {
    pub files: Vec<String>,
    pub lines: usize,
    pub bytes: Option<usize>,
}

/// Whether `c` is a decimal digit.
pub open spec fn is_digit(c: char) -> bool {
    48 <= c as int <= 57
}

/// The value of a decimal digit character.
pub open spec fn digit_val(c: char) -> nat {
    (c as int - 48) as nat
}

/// Whether every character is a decimal digit.
pub open spec fn all_digits(s: Seq<char>) -> bool {
    forall|i: int| 0 <= i < s.len() ==> is_digit(#[trigger] s[i])
}

/// The value of a sequence of decimal digit characters, most significant
/// first.
pub open spec fn digits_val(s: Seq<char>) -> nat
    decreases s.len(),
{
    if s.len() == 0 {
        0
    } else {
        digits_val(s.drop_last()) * 10 + digit_val(s.last())
    }
}

/// The digits of a numeric literal: one leading `+` sign is allowed and
/// ignored.
pub open spec fn strip_plus(s: Seq<char>) -> Seq<char> {
    if s.len() > 0 && s[0] == '+' {
        s.drop_first()
    } else {
        s
    }
}

/// What the literal denotes as an unsigned machine integer: its digits'
/// value if it is non-empty after the optional sign, all digits, and in
/// range; nothing otherwise.
pub open spec fn parsed_value(s: Seq<char>) -> Option<nat> {
    let d = strip_plus(s);
    if d.len() > 0 && all_digits(d) && digits_val(d) <= usize::MAX {
        Some(digits_val(d))
    } else {
        None
    }
}

/// What the literal denotes as a positive count: its value if it denotes an
/// integer greater than zero, nothing otherwise.
pub open spec fn pos_value(s: Seq<char>) -> Option<nat> {
    match parsed_value(s) {
        Some(v) => if v > 0 {
            Some(v)
        } else {
            None
        },
        None => None,
    }
}

/// A prefix of an all-digit sequence denotes at most the whole sequence's
/// value.
proof fn lemma_digits_val_take(d: Seq<char>, k: int)
    requires
        0 <= k <= d.len(),
    ensures
        digits_val(d.take(k)) <= digits_val(d),
    decreases d.len() - k,
{
    if k < d.len() {
        assert(d.take(k + 1).drop_last() =~= d.take(k));
        assert(digits_val(d.take(k + 1)) == digits_val(d.take(k)) * 10 + digit_val(
            d.take(k + 1).last(),
        ));
        lemma_digits_val_take(d, k + 1);
    } else {
        assert(d.take(k) =~= d);
    }
}

/// Parses a strictly positive integer; any other literal (not a number,
/// zero, out of range) fails with the literal itself as the error.
pub fn parse_positive_int(val: &str) -> (r: Result<usize, String>)
    ensures
        (match r {
            Ok(v) => pos_value(val@) == Some(v as nat),
            Err(e) => pos_value(val@) is None && e@ == val@,
        }),
{
    let len = val.unicode_len();
    let start: usize = if len > 0 && val.get_char(0) == '+' {
        1
    } else {
        0
    };
    let ghost d = strip_plus(val@);
    proof {
        if start == 1 {
            assert(d =~= val@.skip(1));
        } else {
            assert(d =~= val@.skip(0));
        }
    }
    if len == start {
        return Err(String::from_str(val));
    }
    let mut n: usize = 0;
    let mut i: usize = start;
    proof {
        assert(d.take(0) =~= Seq::<char>::empty());
    }
    while i < len
        invariant
            start <= i <= len,
            len == val@.len(),
            d == strip_plus(val@),
            d =~= val@.skip(start as int),
            all_digits(d.take(i - start)),
            n == digits_val(d.take(i - start)),
        decreases len - i,
    {
        let c = val.get_char(i);
        let cv = c as u32;
        proof {
            assert(val@[i as int] == d[i - start]);
        }
        if cv < 48 || cv > 57 {
            proof {
                assert(!is_digit(d[i - start]));
                assert(!all_digits(d));
            }
            return Err(String::from_str(val));
        }
        let digit = (cv - 48) as usize;
        proof {
            assert(is_digit(d[i - start]));
            assert(digit == digit_val(d[i - start]));
        }
        if n > (usize::MAX - digit) / 10 {
            proof {
                let m = (usize::MAX - digit) as int;
                assert(m == 10 * (m / 10) + m % 10);
                assert(m % 10 <= 9);
                assert(10 * n + digit > usize::MAX);
                assert(d.take(i - start + 1).drop_last() =~= d.take(i - start));
                assert(d.take(i - start + 1).last() == d[i - start]);
                assert(digits_val(d.take(i - start + 1)) == n * 10 + digit);
                if all_digits(d) {
                    lemma_digits_val_take(d, i - start + 1);
                    assert(digits_val(d) > usize::MAX);
                }
            }
            return Err(String::from_str(val));
        }
        proof {
            assert(d.take(i - start + 1).drop_last() =~= d.take(i - start));
            assert(d.take(i - start + 1).last() == d[i - start]);
            assert(forall|k: int|
                0 <= k < i - start + 1 ==> is_digit(#[trigger] d.take(i - start + 1)[k]));
        }
        n = n * 10 + digit;
        i += 1;
    }
    proof {
        assert(d.take(len - start) =~= d);
    }
    if n == 0 {
        return Err(String::from_str(val));
    }
    Ok(n)
}

/// Validates the line-count flag's value: a positive integer, or an
/// `illegal line count` error naming the literal.
pub fn validate_lines(val: &str) -> (r: Result<usize, String>)
    ensures
        (match r {
            Ok(v) => pos_value(val@) == Some(v as nat),
            Err(e) => pos_value(val@) is None && e@ == "illegal line count -- "@ + val@,
        }),
{
    match parse_positive_int(val) {
        Ok(v) => Ok(v),
        Err(e) => {
            let mut msg = String::from_str("illegal line count -- ");
            msg.append(e.as_str());
            Err(msg)
        },
    }
}

/// Validates the byte-count flag's value: a positive integer, or an
/// `illegal byte count` error naming the literal.
pub fn validate_bytes(val: &str) -> (r: Result<usize, String>)
    ensures
        (match r {
            Ok(v) => pos_value(val@) == Some(v as nat),
            Err(e) => pos_value(val@) is None && e@ == "illegal byte count -- "@ + val@,
        }),
{
    match parse_positive_int(val) {
        Ok(v) => Ok(v),
        Err(e) => {
            let mut msg = String::from_str("illegal byte count -- ");
            msg.append(e.as_str());
            Err(msg)
        },
    }
}

/// What parsing the raw argument tokens yields, one token at a time:
/// `-n`/`--lines` and `-c`/`--bytes` each take the next token as a value,
/// which must be a positive integer; any other token that starts with a
/// dash and is longer than one character is rejected; everything else is an
/// input name. At the end the two limits must not both be set, the line
/// limit defaults to ten, and an empty input list defaults to standard
/// input alone.
pub open spec fn parse_args(
    args: Seq<Seq<char>>,
    files: Seq<Seq<char>>,
    lines: Option<nat>,
    bytes: Option<nat>,
) -> Result<(Seq<Seq<char>>, nat, Option<nat>), Seq<char>>
    decreases args.len(),
{
    if args.len() == 0 {
        if lines is Some && bytes is Some {
            Err("--lines and --bytes are mutually exclusive"@)
        } else {
            Ok(
                (
                    if files.len() == 0 {
                        seq!["-"@]
                    } else {
                        files
                    },
                    match lines {
                        Some(l) => l,
                        None => 10 as nat,
                    },
                    bytes,
                ),
            )
        }
    } else if args[0] == "-n"@ || args[0] == "--lines"@ {
        if args.len() == 1 {
            Err("missing value for "@ + args[0])
        } else {
            match pos_value(args[1]) {
                Some(v) => parse_args(args.skip(2), files, Some(v), bytes),
                None => Err("illegal line count -- "@ + args[1]),
            }
        }
    } else if args[0] == "-c"@ || args[0] == "--bytes"@ {
        if args.len() == 1 {
            Err("missing value for "@ + args[0])
        } else {
            match pos_value(args[1]) {
                Some(v) => parse_args(args.skip(2), files, lines, Some(v)),
                None => Err("illegal byte count -- "@ + args[1]),
            }
        }
    } else if args[0].len() >= 2 && args[0][0] == '-' {
        Err("unrecognized option: "@ + args[0])
    } else {
        parse_args(args.drop_first(), files.push(args[0]), lines, bytes)
    }
}

/// The result of parsing a full raw argument list.
pub open spec fn parsed(args: Seq<Seq<char>>) -> Result<(Seq<Seq<char>>, nat, Option<nat>), Seq<char>> {
    parse_args(args, Seq::empty(), None, None)
}

/// Parses the raw argument tokens (the program name excluded) into a
/// configuration, or reports the first offending token, the offending limit
/// value, or the flag conflict.
pub fn get_args(args: &Vec<String>) -> (r: Result<Config, String>)
    ensures
        (match r {
            Ok(c) => parsed(views(args@)) == Ok::<(Seq<Seq<char>>, nat, Option<nat>), Seq<char>>(
                (views(c.files@), c.lines as nat, onat(c.bytes)),
            ),
            Err(e) => parsed(views(args@)) == Err::<(Seq<Seq<char>>, nat, Option<nat>), Seq<char>>(
                e@,
            ),
        }),
{
    let ghost av = views(args@);
    let f_n = String::from_str("-n");
    let f_nl = String::from_str("--lines");
    let f_c = String::from_str("-c");
    let f_cl = String::from_str("--bytes");
    let mut files: Vec<String> = Vec::new();
    let mut lines: Option<usize> = None;
    let mut bytes: Option<usize> = None;
    let mut i: usize = 0;
    proof {
        assert(av.skip(0) =~= av);
        assert(views(files@) =~= Seq::<Seq<char>>::empty());
    }
    while i < args.len()
        invariant
            i <= args.len(),
            av == views(args@),
            f_n@ == "-n"@,
            f_nl@ == "--lines"@,
            f_c@ == "-c"@,
            f_cl@ == "--bytes"@,
            parsed(av) == parse_args(av.skip(i as int), views(files@), onat(lines), onat(bytes)),
        decreases args.len() - i,
    {
        proof {
            assert(av.skip(i as int)[0] == av[i as int]);
            assert(av.skip(i as int).drop_first() =~= av.skip(i + 1 as int));
            if i + 2 <= av.len() {
                assert(av.skip(i as int).skip(2) =~= av.skip(i + 2 as int));
            }
        }
        let a = &args[i];
        if a.eq(&f_n) || a.eq(&f_nl) {
            if i + 1 == args.len() {
                let mut e = String::from_str("missing value for ");
                e.append(a.as_str());
                return Err(e);
            }
            proof {
                assert(av.skip(i as int)[1] == av[i + 1 as int]);
            }
            match validate_lines(args[i + 1].as_str()) {
                Ok(val) => {
                    lines = Some(val);
                },
                Err(e) => {
                    return Err(e);
                },
            }
            i += 2;
        } else if a.eq(&f_c) || a.eq(&f_cl) {
            if i + 1 == args.len() {
                let mut e = String::from_str("missing value for ");
                e.append(a.as_str());
                return Err(e);
            }
            proof {
                assert(av.skip(i as int)[1] == av[i + 1 as int]);
            }
            match validate_bytes(args[i + 1].as_str()) {
                Ok(val) => {
                    bytes = Some(val);
                },
                Err(e) => {
                    return Err(e);
                },
            }
            i += 2;
        } else {
            let len = a.as_str().unicode_len();
            if len >= 2 && a.as_str().get_char(0) == '-' {
                let mut e = String::from_str("unrecognized option: ");
                e.append(a.as_str());
                return Err(e);
            }
            let ghost before = views(files@);
            files.push(a.clone());
            proof {
                assert(views(files@) =~= before.push(av[i as int]));
            }
            i += 1;
        }
    }
    proof {
        assert(av.skip(args@.len() as int) =~= Seq::<Seq<char>>::empty());
    }
    if lines.is_some() && bytes.is_some() {
        return Err(String::from_str("--lines and --bytes are mutually exclusive"));
    }
    if files.len() == 0 {
        files.push(String::from_str("-"));
        proof {
            assert(views(files@) =~= seq!["-"@]);
        }
    }
    let lines_limit = match lines {
        Some(l) => l,
        None => 10,
    };
    Ok(Config { files, lines: lines_limit, bytes })
}

/// The shortest prefix of the bytes that contains `n` line terminators, or
/// all of them if fewer lines are there; what head's line mode emits.
pub open spec fn take_lines(data: Seq<u8>, n: nat) -> Seq<u8>
    decreases data.len(),
{
    if n == 0 || data.len() == 0 {
        Seq::empty()
    } else if data[0] == 10 {
        seq![data[0]] + take_lines(data.drop_first(), (n - 1) as nat)
    } else {
        seq![data[0]] + take_lines(data.drop_first(), n)
    }
}

/// The first `n` bytes, or all of them if fewer are there; what head's byte
/// mode emits.
pub open spec fn take_bytes(data: Seq<u8>, n: nat) -> Seq<u8> {
    if n <= data.len() {
        data.take(n as int)
    } else {
        data
    }
}

/// What head emits for one opened source's content.
pub open spec fn head_content(data: Seq<u8>, lines: nat, bytes: Option<nat>) -> Seq<u8> {
    match bytes {
        Some(b) => take_bytes(data, b),
        None => take_lines(data, lines),
    }
}

/// The number of line terminators among the bytes.
pub open spec fn newlines(data: Seq<u8>) -> nat
    decreases data.len(),
{
    if data.len() == 0 {
        0
    } else {
        (if data[0] == 10 {
            1 as nat
        } else {
            0
        }) + newlines(data.drop_first())
    }
}

/// Line mode emits a verbatim prefix of the source: byte for byte, nothing
/// reordered or rewritten.
pub proof fn lemma_take_lines_prefix(data: Seq<u8>, n: nat)
    ensures
        take_lines(data, n).len() <= data.len(),
        take_lines(data, n) == data.take(take_lines(data, n).len() as int),
    decreases data.len(),
{
    if n == 0 || data.len() == 0 {
        assert(take_lines(data, n) =~= data.take(0));
    } else {
        let m: nat = if data[0] == 10 {
            (n - 1) as nat
        } else {
            n
        };
        lemma_take_lines_prefix(data.drop_first(), m);
        let l = take_lines(data.drop_first(), m).len() as int;
        assert(take_lines(data, n) =~= data.take(l + 1));
    }
}

/// A source with fewer lines than the limit passes through whole: when the
/// bytes hold fewer terminators than `n`, line mode emits all of them.
pub proof fn lemma_take_lines_all(data: Seq<u8>, n: nat)
    requires
        newlines(data) < n,
    ensures
        take_lines(data, n) == data,
    decreases data.len(),
{
    if data.len() == 0 {
        assert(take_lines(data, n) =~= data);
    } else {
        let m: nat = if data[0] == 10 {
            (n - 1) as nat
        } else {
            n
        };
        lemma_take_lines_all(data.drop_first(), m);
        assert(take_lines(data, n) =~= data);
    }
}

/// Line mode emits exactly as many lines as asked for: the emitted prefix
/// holds `n` line terminators, or all of them if the source has fewer.
pub proof fn lemma_take_lines_count(data: Seq<u8>, n: nat)
    ensures
        newlines(take_lines(data, n)) == if n <= newlines(data) {
            n
        } else {
            newlines(data)
        },
    decreases data.len(),
{
    if n == 0 || data.len() == 0 {
        assert(take_lines(data, n) =~= Seq::<u8>::empty());
    } else {
        let m: nat = if data[0] == 10 {
            (n - 1) as nat
        } else {
            n
        };
        lemma_take_lines_count(data.drop_first(), m);
        let rest = take_lines(data.drop_first(), m);
        assert((seq![data[0]] + rest).drop_first() =~= rest);
        assert((seq![data[0]] + rest)[0] == data[0]);
    }
}

/// Emits the lines of the source up to and including the `n`-th line
/// terminator, byte for byte; fewer if the source is shorter.
pub fn head_lines(data: &Vec<u8>, n: usize) -> (r: Vec<u8>)
    ensures
        r@ == take_lines(data@, n as nat),
{
    let mut out: Vec<u8> = Vec::new();
    let mut remaining = n;
    let mut i: usize = 0;
    proof {
        assert(out@ =~= data@.take(0));
        assert(data@.skip(0) =~= data@);
        assert(data@.take(0) + take_lines(data@.skip(0), n as nat) =~= take_lines(
            data@,
            n as nat,
        ));
    }
    while i < data.len() && remaining > 0
        invariant
            i <= data.len(),
            out@ == data@.take(i as int),
            take_lines(data@, n as nat) == data@.take(i as int) + take_lines(
                data@.skip(i as int),
                remaining as nat,
            ),
        decreases data.len() - i,
    {
        let ghost pre_rem = remaining as nat;
        let ghost rest = data@.skip(i as int);
        let b = data[i];
        out.push(b);
        if b == 10 {
            remaining -= 1;
        }
        proof {
            assert(rest[0] == data@[i as int]);
            assert(rest.drop_first() =~= data@.skip(i + 1 as int));
            assert(take_lines(rest, pre_rem) == seq![data@[i as int]] + take_lines(
                data@.skip(i + 1 as int),
                remaining as nat,
            ));
            assert(data@.take(i as int) + (seq![data@[i as int]] + take_lines(
                data@.skip(i + 1 as int),
                remaining as nat,
            )) =~= data@.take(i + 1 as int) + take_lines(
                data@.skip(i + 1 as int),
                remaining as nat,
            ));
        }
        i += 1;
    }
    proof {
        if remaining == 0 {
            assert(take_lines(data@.skip(i as int), 0) =~= Seq::<u8>::empty());
        } else {
            assert(data@.skip(i as int) =~= Seq::<u8>::empty());
            assert(take_lines(data@.skip(i as int), remaining as nat) =~= Seq::<u8>::empty());
        }
        assert(data@.take(i as int) + Seq::<u8>::empty() =~= data@.take(i as int));
    }
    out
}

/// Emits the first `n` bytes of the source, or all of it if shorter,
/// independent of line boundaries.
pub fn head_bytes(data: &Vec<u8>, n: usize) -> (r: Vec<u8>)
    ensures
        r@ == take_bytes(data@, n as nat),
{
    let m = if n <= data.len() {
        n
    } else {
        data.len()
    };
    let mut out: Vec<u8> = Vec::new();
    let mut i: usize = 0;
    proof {
        assert(out@ =~= data@.take(0));
    }
    while i < m
        invariant
            i <= m <= data.len(),
            out@ == data@.take(i as int),
        decreases m - i,
    {
        out.push(data[i]);
        proof {
            assert(out@ =~= data@.take(i + 1 as int));
        }
        i += 1;
    }
    proof {
        if n > data@.len() {
            assert(data@.take(data@.len() as int) =~= data@);
        }
    }
    out
}

/// The banner printed before a source's content when several sources were
/// requested: `==> <name> <==` on a line of its own, preceded by a blank
/// line for every banner after the first — banners are separated by blank
/// lines, so the first one printed gets none.
pub open spec fn banner(name: Seq<char>, first: bool) -> Seq<char> {
    (if first {
        Seq::<char>::empty()
    } else {
        seq!['\n']
    }) + "==> "@ + name + " <=="@ + seq!['\n']
}

/// Builds the banner for one source.
pub fn format_banner(name: &str, first: bool) -> (r: String)
    ensures
        r@ == banner(name@, first),
{
    let mut r = String::new();
    proof {
        reveal_strlit("\n");
    }
    if !first {
        r.append("\n");
    }
    r.append("==> ");
    r.append(name);
    r.append(" <==");
    r.append("\n");
    proof {
        assert(("\n")@ =~= seq!['\n']);
        assert(r@ =~= banner(name@, first));
    }
    r
}

/// Whether any of the sources opened successfully — in head's multi-source
/// mode, whether a banner has been printed for them.
pub open spec fn any_opened(srcs: Seq<Source<Vec<u8>>>) -> bool {
    exists|j: int| 0 <= j < srcs.len() && (#[trigger] srcs[j]).data is Ok
}

/// What head emits for one source: nothing if it failed to open (no banner
/// either); otherwise its banner (only when several sources were requested;
/// `first` says whether it is the first banner printed) and its truncated
/// content.
pub open spec fn src_out(
    s: Source<Vec<u8>>,
    first: bool,
    lines: nat,
    bytes: Option<nat>,
    multi: bool,
) -> Seq<PieceView> {
    match s.data {
        Ok(v) => (if multi {
            seq![PieceView::Text(banner(s.name@, first))]
        } else {
            Seq::<PieceView>::empty()
        }) + seq![PieceView::Bytes(head_content(v@, lines, bytes))],
        Err(_) => Seq::empty(),
    }
}

/// Everything head writes to standard output, source by source: a source's
/// banner is the first one printed exactly when no source before it opened.
pub open spec fn head_out(
    srcs: Seq<Source<Vec<u8>>>,
    lines: nat,
    bytes: Option<nat>,
    multi: bool,
) -> Seq<PieceView>
    decreases srcs.len(),
{
    if srcs.len() == 0 {
        Seq::empty()
    } else {
        head_out(srcs.drop_last(), lines, bytes, multi) + src_out(
            srcs.last(),
            !any_opened(srcs.drop_last()),
            lines,
            bytes,
            multi,
        )
    }
}

/// The mathematical value of an optional machine integer.
pub open spec fn onat(b: Option<usize>) -> Option<nat> {
    match b {
        Some(v) => Some(v as nat),
        None => None,
    }
}

/// Runs the head clone on the resolved sources: emits each opened source's
/// first lines (or bytes), behind its banner when several sources were
/// requested. Returns the output pieces and the warning lines.
pub fn run(config: &Config, sources: &Vec<Source<Vec<u8>>>) -> (r: (Vec<Chunk>, Vec<String>))
    ensures
        chunk_views(r.0@) == head_out(
            sources@,
            config.lines as nat,
            onat(config.bytes),
            sources@.len() > 1,
        ),
        views(r.1@) == warnings_of(sources@),
{
    let multi = sources.len() > 1;
    let mut out: Vec<Chunk> = Vec::new();
    let mut warns: Vec<String> = Vec::new();
    let mut opened_any = false;
    let mut i: usize = 0;
    proof {
        assert(chunk_views(out@) =~= head_out(
            sources@.take(0),
            config.lines as nat,
            onat(config.bytes),
            multi,
        ));
        assert(views(warns@) =~= warnings_of(sources@.take(0)));
        assert(!any_opened(sources@.take(0)));
    }
    while i < sources.len()
        invariant
            i <= sources.len(),
            multi == (sources@.len() > 1),
            opened_any == any_opened(sources@.take(i as int)),
            chunk_views(out@) == head_out(
                sources@.take(i as int),
                config.lines as nat,
                onat(config.bytes),
                multi,
            ),
            views(warns@) == warnings_of(sources@.take(i as int)),
        decreases sources.len() - i,
    {
        let s = &sources[i];
        proof {
            assert(sources@.take(i + 1 as int).drop_last() =~= sources@.take(i as int));
            assert(sources@.take(i + 1 as int).last() == sources@[i as int]);
            assert(sources@.take(i + 1 as int).len() == i + 1);
        }
        match &s.data {
            Ok(v) => {
                let ghost before = chunk_views(out@);
                let ghost first = !any_opened(sources@.take(i as int));
                if multi {
                    let b = format_banner(s.name.as_str(), !opened_any);
                    out.push(Chunk::Text(b));
                }
                let content = match config.bytes {
                    Some(nb) => head_bytes(v, nb),
                    None => head_lines(v, config.lines),
                };
                out.push(Chunk::Bytes(content));
                opened_any = true;
                proof {
                    if multi {
                        assert(chunk_views(out@) =~= before + seq![
                            PieceView::Text(banner(s.name@, first)),
                            PieceView::Bytes(
                                head_content(v@, config.lines as nat, onat(config.bytes)),
                            ),
                        ]);
                        assert(src_out(
                            sources@[i as int],
                            first,
                            config.lines as nat,
                            onat(config.bytes),
                            multi,
                        ) =~= seq![
                            PieceView::Text(banner(s.name@, first)),
                            PieceView::Bytes(
                                head_content(v@, config.lines as nat, onat(config.bytes)),
                            ),
                        ]);
                    } else {
                        assert(chunk_views(out@) =~= before + seq![
                            PieceView::Bytes(
                                head_content(v@, config.lines as nat, onat(config.bytes)),
                            ),
                        ]);
                        assert(src_out(
                            sources@[i as int],
                            first,
                            config.lines as nat,
                            onat(config.bytes),
                            multi,
                        ) =~= seq![
                            PieceView::Bytes(
                                head_content(v@, config.lines as nat, onat(config.bytes)),
                            ),
                        ]);
                    }
                    assert(chunk_views(out@) =~= head_out(
                        sources@.take(i + 1 as int),
                        config.lines as nat,
                        onat(config.bytes),
                        multi,
                    ));
                    assert(sources@.take(i + 1 as int)[i as int].data is Ok);
                    assert(any_opened(sources@.take(i + 1 as int)));
                }
            },
            Err(e) => {
                let ghost before = views(warns@);
                let w = format_warning(s.name.as_str(), e.as_str());
                warns.push(w);
                proof {
                    assert(views(warns@) =~= before.push(
                        crate::source::warning(s.name@, s.data->Err_0@),
                    ));
                    assert(chunk_views(out@) + src_out(
                        sources@[i as int],
                        !any_opened(sources@.take(i as int)),
                        config.lines as nat,
                        onat(config.bytes),
                        multi,
                    ) =~= chunk_views(out@));
                    if any_opened(sources@.take(i + 1 as int)) {
                        let j = choose|j: int|
                            0 <= j < i + 1 && (#[trigger] sources@.take(i + 1 as int)[j]).data
                                is Ok;
                        assert(sources@.take(i as int)[j].data is Ok);
                        assert(any_opened(sources@.take(i as int)));
                    }
                    if any_opened(sources@.take(i as int)) {
                        let j = choose|j: int|
                            0 <= j < i && (#[trigger] sources@.take(i as int)[j]).data is Ok;
                        assert(sources@.take(i + 1 as int)[j].data is Ok);
                        assert(any_opened(sources@.take(i + 1 as int)));
                    }
                }
            },
        }
        i += 1;
    }
    proof {
        assert(sources@.take(sources@.len() as int) =~= sources@);
    }
    (out, warns)
}

} // verus!
