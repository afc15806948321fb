use vstd::prelude::*;
use crate::escape::{push_escape, push_line_prefix};
use crate::model::{
    body, cat_output, count_all, count_numbered, lemma_count_numbered_bound, lemma_render_take, prev_of,
    render, render_all, step, views, NL, TAB,
};
use crate::options::{flags_of, flags_spec, Flags, Options};

verus! {

/// Appends what byte `b`, which follows `prev`, turns into (line number aside).
fn push_body(f: &Flags, prev: u8, b: u8, out: &mut Vec<u8>)
    ensures
        final(out)@ == old(out)@ + body(*f, prev, b),
{
    if b == TAB && f.show_tabs {
        out.push(94);
        out.push(73);
    } else if b == NL {
        if prev == NL && f.squeeze_blank {
        } else if f.show_ends {
            out.push(36);
            out.push(NL);
        } else {
            out.push(NL);
        }
    } else if f.show_nonprinting {
        push_escape(b, out);
    } else {
        out.push(b);
    }
}

/// Appends the output for one source, continuing the line numbering from
/// `line_index`, the count of line numbers written so far, and advances it.
pub fn render_source(f: &Flags, src: &[u8], line_index: &mut u128, out: &mut Vec<u8>)
    requires
        *old(line_index) + src@.len() <= u128::MAX,
    ensures
        final(out)@ == old(out)@ + render(*f, src@, *old(line_index) as nat),
        *final(line_index) == *old(line_index) + count_numbered(*f, src@),
{
    let ghost out0 = out@;
    let ghost start = *line_index as nat;
    let mut prev: u8 = NL;
    let mut j: usize = 0;
    while j < src.len()
        invariant
            j <= src@.len(),
            start + src@.len() <= u128::MAX,
            prev == prev_of(src@, j as int),
            *line_index == start + count_numbered(*f, src@.take(j as int)),
            out@ == out0 + render(*f, src@.take(j as int), start),
        decreases src@.len() - j,
    {
        let b = src[j];
        proof {
            lemma_render_take(*f, src@, j as int, start);
            lemma_count_numbered_bound(*f, src@.take(j as int));
        }
        let ghost idx = *line_index as nat;
        if prev == NL && (if f.number_nonblank { b != NL } else { f.number }) {
            *line_index = *line_index + 1;
            push_line_prefix(*line_index, out);
        }
        push_body(f, prev, b, out);
        proof {
            assert(out@ == out0 + render(*f, src@.take(j as int), start) + step(*f, prev, b, idx));
        }
        prev = b;
        j = j + 1;
    }
    proof {
        assert(src@.take(src@.len() as int) == src@);
    }
}

/// The output for a list of sources under the given flags: each source in
/// turn, each starting a fresh line, with line numbers running on across them.
pub fn transform(inputs: &[Vec<u8>], f: &Flags) -> (out: Vec<u8>)
    ensures
        out@ == cat_output(*f, views(inputs@)),
{
    let ghost srcs = views(inputs@);
    let ghost m = usize::MAX as int;
    let mut out: Vec<u8> = Vec::new();
    let mut line_index: u128 = 0;
    let mut i: usize = 0;
    while i < inputs.len()
        invariant
            i <= inputs@.len(),
            srcs == views(inputs@),
            m == usize::MAX as int,
            line_index == count_all(*f, srcs.take(i as int)),
            line_index <= i * m,
            out@ == render_all(*f, srcs.take(i as int), 0),
        decreases inputs@.len() - i,
    {
        let src = &inputs[i];
        let src_len = src.len();
        proof {
            let t = srcs.take(i as int + 1);
            assert(t.drop_last() == srcs.take(i as int));
            assert(t.last() == src@);
            lemma_count_numbered_bound(*f, src@);
            assert(src@.len() <= m);
            assert(i + 1 <= m);
            assert((i + 1) * m <= m * m) by (nonlinear_arith)
                requires
                    i + 1 <= m,
                    0 <= m,
            ;
            assert(m * m <= 0xffff_ffff_ffff_ffffint * 0xffff_ffff_ffff_ffffint) by (nonlinear_arith)
                requires
                    0 <= m <= 0xffff_ffff_ffff_ffffint,
            ;
            assert(line_index + src@.len() <= (i + 1) * m) by (nonlinear_arith)
                requires
                    line_index <= i * m,
                    src@.len() <= m,
            ;
        }
        render_source(f, src.as_slice(), &mut line_index, &mut out);
        i = i + 1;
    }
    proof {
        assert(srcs.take(inputs@.len() as int) == srcs);
    }
    out
}

/// Concatenates the sources, transformed under the options listed (an
/// option counts once however often it is listed).
pub fn cat(inputs: &[Vec<u8>], options: &[Options]) -> (out: Vec<u8>)
    ensures
        out@ == cat_output(flags_spec(options@), views(inputs@)),
{
    let f = flags_of(options);
    transform(inputs, &f)
}

} // verus!
