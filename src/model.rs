use vstd::prelude::*;
use crate::options::Flags;

verus! {

/// The newline byte.
pub const NL: u8 = 10;

/// The horizontal tab byte.
pub const TAB: u8 = 9;

/// Caret notation for a byte below 128. At the top level (`nested` false) a
/// tab or newline stands for itself; under an `M-` prefix it is escaped too.
pub open spec fn caret(v: u8, nested: bool) -> Seq<u8> {
    if (32 <= v && v <= 126) || (!nested && (v == TAB || v == NL)) {
        seq![v]
    } else if v == 127 {
        seq![94u8, 63u8]
    } else {
        seq![94u8, (v + 64) as u8]
    }
}

/// The non-printing notation of a byte: `M-` and the notation of the low
/// seven bits for a byte with its high bit set, caret notation otherwise.
pub open spec fn escape(b: u8) -> Seq<u8> {
    if b >= 128 {
        seq![77u8, 45u8] + caret((b - 128) as u8, true)
    } else {
        caret(b, false)
    }
}

/// The decimal digits of `n`, most significant first, as ASCII bytes.
pub open spec fn decimal(n: nat) -> Seq<u8>
    decreases n,
{
    if n < 10 {
        seq![(48 + n) as u8]
    } else {
        decimal(n / 10).push((48 + n % 10) as u8)
    }
}

/// `k` space bytes.
pub open spec fn spaces(k: nat) -> Seq<u8> {
    Seq::new(k, |_i: int| 32u8)
}

/// The prefix of a numbered line: `n` right-justified in six columns, then
/// two spaces.
pub open spec fn line_prefix(n: nat) -> Seq<u8> {
    let d = decimal(n);
    let pad = if d.len() < 6 { spaces((6 - d.len()) as nat) } else { Seq::empty() };
    pad + d + seq![32u8, 32u8]
}

/// The byte that precedes position `i` of a source; a source starts as if a
/// newline came before it.
pub open spec fn prev_of(src: Seq<u8>, i: int) -> u8 {
    if i <= 0 { NL } else { src[i - 1] }
}

/// Whether a line number is written before byte `b`, which follows `prev`.
/// Only the start of a line is numbered; `number_nonblank` wins over
/// `number` and skips empty lines.
pub open spec fn numbered_here(f: Flags, prev: u8, b: u8) -> bool {
    prev == NL && if f.number_nonblank { b != NL } else { f.number }
}

/// What byte `b`, which follows `prev`, turns into (line number aside).
pub open spec fn body(f: Flags, prev: u8, b: u8) -> Seq<u8> {
    if b == TAB && f.show_tabs {
        seq![94u8, 73u8]
    } else if b == NL {
        if prev == NL && f.squeeze_blank {
            Seq::empty()
        } else if f.show_ends {
            seq![36u8, NL]
        } else {
            seq![NL]
        }
    } else if f.show_nonprinting {
        escape(b)
    } else {
        seq![b]
    }
}

/// What byte `b` turns into, where `idx` line numbers were written before it.
pub open spec fn step(f: Flags, prev: u8, b: u8, idx: nat) -> Seq<u8> {
    if numbered_here(f, prev, b) {
        line_prefix(idx + 1) + body(f, prev, b)
    } else {
        body(f, prev, b)
    }
}

/// How many line numbers a source consumes.
pub open spec fn count_numbered(f: Flags, src: Seq<u8>) -> nat
    decreases src.len(),
{
    if src.len() == 0 {
        0
    } else {
        let n = src.len() - 1;
        count_numbered(f, src.drop_last()) + if numbered_here(f, prev_of(src, n), src[n]) {
            1nat
        } else {
            0nat
        }
    }
}

/// The output for one source, where `start` line numbers were written before it.
pub open spec fn render(f: Flags, src: Seq<u8>, start: nat) -> Seq<u8>
    decreases src.len(),
{
    if src.len() == 0 {
        Seq::empty()
    } else {
        let n = src.len() - 1;
        render(f, src.drop_last(), start) + step(
            f,
            prev_of(src, n),
            src[n],
            start + count_numbered(f, src.drop_last()),
        )
    }
}

/// How many line numbers a list of sources consumes.
pub open spec fn count_all(f: Flags, srcs: Seq<Seq<u8>>) -> nat
    decreases srcs.len(),
{
    if srcs.len() == 0 {
        0
    } else {
        count_all(f, srcs.drop_last()) + count_numbered(f, srcs.last())
    }
}

/// The output for a list of sources, where `start` line numbers were
/// written before them: each source in turn, numbering carried on.
pub open spec fn render_all(f: Flags, srcs: Seq<Seq<u8>>, start: nat) -> Seq<u8>
    decreases srcs.len(),
{
    if srcs.len() == 0 {
        Seq::empty()
    } else {
        render_all(f, srcs.drop_last(), start) + render(
            f,
            srcs.last(),
            start + count_all(f, srcs.drop_last()),
        )
    }
}

/// The whole output of the transformation.
pub open spec fn cat_output(f: Flags, srcs: Seq<Seq<u8>>) -> Seq<u8> {
    render_all(f, srcs, 0)
}

/// The contents of a list of byte vectors.
pub open spec fn views(v: Seq<Vec<u8>>) -> Seq<Seq<u8>> {
    v.map_values(|x: Vec<u8>| x@)
}

/// A source consumes at most one line number per byte.
pub proof fn lemma_count_numbered_bound(f: Flags, src: Seq<u8>)
    ensures
        count_numbered(f, src) <= src.len(),
    decreases src.len(),
{
    if src.len() > 0 {
        lemma_count_numbered_bound(f, src.drop_last());
    }
}

/// Extending a source by one byte extends its output by that byte's step.
pub proof fn lemma_render_take(f: Flags, src: Seq<u8>, j: int, start: nat)
    requires
        0 <= j < src.len(),
    ensures
        render(f, src.take(j + 1), start) == render(f, src.take(j), start) + step(
            f,
            prev_of(src, j),
            src[j],
            start + count_numbered(f, src.take(j)),
        ),
        count_numbered(f, src.take(j + 1)) == count_numbered(f, src.take(j)) + if numbered_here(
            f,
            prev_of(src, j),
            src[j],
        ) {
            1nat
        } else {
            0nat
        },
{
    let t = src.take(j + 1);
    assert(t.drop_last() == src.take(j));
    assert(prev_of(t, j) == prev_of(src, j));
}

} // verus!
