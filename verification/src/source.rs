//! Input sources and output pieces.
//!
//! A tool run works through an ordered list of named sources. The binary
//! around the library resolves each name (`-` is standard input, anything
//! else a file) and hands the library either the content it read or the text
//! of the open error; the library never touches the file system itself. A
//! source that failed to open contributes a single warning line of the form
//! `<name>: <error>` and nothing to the output.

use vstd::prelude::*;
use vstd::string::*;

verus! {

/// One named input source, already resolved: either its content, or the
/// text of the error that opening it produced.
pub struct Source<T> {
    pub name: String,
    pub data: Result<T, String>,
}

/// One piece of a tool's standard output: either text, printed as is, or
/// raw bytes, written verbatim (the head clone's byte mode may cut a
/// multi-byte character in half, so its content is not text).
pub enum Chunk {
    Text(String),
    Bytes(Vec<u8>),
}

/// What one output piece is mathematically: a character sequence printed as
/// text, or a raw byte sequence.
pub enum PieceView {
    Text(Seq<char>),
    Bytes(Seq<u8>),
}

impl View for Chunk {
    type V = PieceView;

    open spec fn view(&self) -> PieceView {
        match self {
            Chunk::Text(s) => PieceView::Text(s@),
            Chunk::Bytes(v) => PieceView::Bytes(v@),
        }
    }
}

/// The piece views of a list of output chunks.
pub open spec fn chunk_views(cs: Seq<Chunk>) -> Seq<PieceView> {
    cs.map_values(|c: Chunk| c@)
}

/// The character sequences of a list of strings.
pub open spec fn views(v: Seq<String>) -> Seq<Seq<char>> {
    v.map_values(|s: String| s@)
}

/// The warning printed for a source that failed to open.
pub open spec fn warning(name: Seq<char>, err: Seq<char>) -> Seq<char> {
    name + seq![':', ' '] + err
}

/// The warnings a list of sources produces: one `<name>: <error>` line per
/// source that failed to open, in source order.
pub open spec fn warnings_of<T>(srcs: Seq<Source<T>>) -> Seq<Seq<char>>
    decreases srcs.len(),
{
    if srcs.len() == 0 {
        Seq::empty()
    } else {
        warnings_of(srcs.drop_last()) + (match srcs.last().data {
            Ok(_) => Seq::empty(),
            Err(e) => seq![warning(srcs.last().name@, e@)],
        })
    }
}

/// Builds the `<name>: <error>` warning line for a source that failed to
/// open.
pub fn format_warning(name: &str, err: &str) -> (r: String)
    ensures
        r@ == warning(name@, err@),
{
    let mut r = String::from_str(name);
    proof {
        reveal_strlit(": ");
    }
    r.append(": ");
    proof {
        assert(r@ =~= name@ + seq![':', ' ']);
    }
    r.append(err);
    r
}

} // verus!
