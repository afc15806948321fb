use vstd::prelude::*;
use crate::model::{
    body, caret, cat_output, count_all, count_numbered, decimal, escape, line_prefix, numbered_here,
    prev_of, render, render_all, spaces, step, NL, TAB,
};
use crate::options::{flags_spec, Flags};

verus! {

/// `s` with every occurrence of byte `x` replaced by `r`.
pub open spec fn replace_byte(s: Seq<u8>, x: u8, r: Seq<u8>) -> Seq<u8>
    decreases s.len(),
{
    if s.len() == 0 {
        Seq::empty()
    } else {
        replace_byte(s.drop_last(), x, r) + if s.last() == x {
            r
        } else {
            seq![s.last()]
        }
    }
}

/// Whether byte `x` is absent from `s`.
pub open spec fn free_of(s: Seq<u8>, x: u8) -> bool {
    forall|k: int| 0 <= k < s.len() ==> s[k] != x
}

proof fn lemma_replace_concat(a: Seq<u8>, b: Seq<u8>, x: u8, r: Seq<u8>)
    ensures
        replace_byte(a + b, x, r) == replace_byte(a, x, r) + replace_byte(b, x, r),
    decreases b.len(),
{
    if b.len() == 0 {
        assert(a + b == a);
    } else {
        lemma_replace_concat(a, b.drop_last(), x, r);
        assert((a + b).drop_last() == a + b.drop_last());
    }
}

proof fn lemma_replace_absent(s: Seq<u8>, x: u8, r: Seq<u8>)
    requires
        free_of(s, x),
    ensures
        replace_byte(s, x, r) == s,
    decreases s.len(),
{
    if s.len() > 0 {
        lemma_replace_absent(s.drop_last(), x, r);
        assert(s.drop_last().push(s.last()) == s);
    }
}

proof fn lemma_replace_single(x: u8, r: Seq<u8>)
    ensures
        replace_byte(seq![x], x, r) == r,
{
    let one = seq![x];
    assert(one.drop_last() =~= Seq::<u8>::empty());
    assert(replace_byte(one.drop_last(), x, r) == Seq::<u8>::empty());
    assert(Seq::<u8>::empty() + r =~= r);
}

proof fn lemma_replace_self(s: Seq<u8>, x: u8)
    ensures
        replace_byte(s, x, seq![x]) == s,
    decreases s.len(),
{
    if s.len() > 0 {
        lemma_replace_self(s.drop_last(), x);
        assert(s.drop_last().push(s.last()) == s);
    }
}

proof fn lemma_decimal_digits(n: nat)
    ensures
        forall|k: int| 0 <= k < decimal(n).len() ==> 48 <= #[trigger] decimal(n)[k] <= 57,
    decreases n,
{
    if n >= 10 {
        lemma_decimal_digits(n / 10);
        let d = decimal(n / 10);
        assert(decimal(n) == d.push((48 + n % 10) as u8));
        assert forall|k: int| 0 <= k < decimal(n).len() implies 48 <= #[trigger] decimal(n)[k]
            <= 57 by {
            if k < d.len() {
                assert(decimal(n)[k] == d[k]);
            }
        }
    }
}

/// A line prefix holds digits and spaces only.
proof fn lemma_prefix_plain(n: nat)
    ensures
        forall|k: int|
            0 <= k < line_prefix(n).len() ==> (#[trigger] line_prefix(n)[k] == 32 || 48
                <= line_prefix(n)[k] <= 57),
{
    lemma_decimal_digits(n);
    let d = decimal(n);
    let pad = if d.len() < 6 { spaces((6 - d.len()) as nat) } else { Seq::<u8>::empty() };
    assert forall|k: int| 0 <= k < line_prefix(n).len() implies (#[trigger] line_prefix(n)[k] == 32
        || 48 <= line_prefix(n)[k] <= 57) by {
        if k < pad.len() {
        } else if k < pad.len() + d.len() {
            assert(line_prefix(n)[k] == d[k - pad.len()]);
        }
    }
}

/// The notation of a byte other than a newline holds no newline; the notation
/// of a byte other than a tab holds no tab.
proof fn lemma_escape_plain(b: u8)
    ensures
        escape(b).len() > 0,
        b != NL ==> free_of(escape(b), NL),
        b != TAB ==> free_of(escape(b), TAB),
        b == TAB ==> escape(b) == seq![TAB],
{
    if b >= 128 {
        let c = caret((b - 128) as u8, true);
        assert(escape(b) == seq![77u8, 45u8] + c);
        assert(c.len() >= 1);
        assert forall|k: int| 0 <= k < escape(b).len() implies escape(b)[k] != NL && escape(b)[k]
            != TAB by {
            if k >= 2 {
                assert(escape(b)[k] == c[k - 2]);
            }
        }
    }
}

/// What a byte other than a newline turns into is non-empty and holds no newline.
proof fn lemma_body_plain(f: Flags, prev: u8, b: u8)
    requires
        b != NL,
    ensures
        body(f, prev, b).len() > 0,
        free_of(body(f, prev, b), NL),
{
    lemma_escape_plain(b);
}

/// Where every step under `g` is the step under `f` with `x` replaced by `r`,
/// so is the output of a source.
proof fn lemma_render_replaced(f: Flags, g: Flags, x: u8, r: Seq<u8>, src: Seq<u8>, start: nat)
    requires
        forall|p: u8, b: u8| #[trigger] numbered_here(g, p, b) == numbered_here(f, p, b),
        forall|p: u8, b: u8, i: nat| #[trigger]
            step(g, p, b, i) == replace_byte(step(f, p, b, i), x, r),
    ensures
        render(g, src, start) == replace_byte(render(f, src, start), x, r),
        count_numbered(g, src) == count_numbered(f, src),
    decreases src.len(),
{
    if src.len() > 0 {
        let n = src.len() - 1;
        lemma_render_replaced(f, g, x, r, src.drop_last(), start);
        let i = start + count_numbered(f, src.drop_last());
        assert(numbered_here(g, prev_of(src, n), src[n]) == numbered_here(f, prev_of(src, n), src[n]));
        assert(step(g, prev_of(src, n), src[n], i) == replace_byte(step(f, prev_of(src, n), src[n], i), x, r));
        lemma_replace_concat(render(f, src.drop_last(), start), step(f, prev_of(src, n), src[n], i), x, r);
    }
}

/// The same for a list of sources.
proof fn lemma_render_all_replaced(
    f: Flags,
    g: Flags,
    x: u8,
    r: Seq<u8>,
    srcs: Seq<Seq<u8>>,
    start: nat,
)
    requires
        forall|p: u8, b: u8| #[trigger] numbered_here(g, p, b) == numbered_here(f, p, b),
        forall|p: u8, b: u8, i: nat| #[trigger]
            step(g, p, b, i) == replace_byte(step(f, p, b, i), x, r),
    ensures
        render_all(g, srcs, start) == replace_byte(render_all(f, srcs, start), x, r),
        count_all(g, srcs) == count_all(f, srcs),
    decreases srcs.len(),
{
    if srcs.len() > 0 {
        lemma_render_all_replaced(f, g, x, r, srcs.drop_last(), start);
        let i = start + count_all(f, srcs.drop_last());
        lemma_render_replaced(f, g, x, r, srcs.last(), i);
        lemma_replace_concat(render_all(f, srcs.drop_last(), start), render(f, srcs.last(), i), x, r);
    }
}

/// Showing line ends is the same as writing the output without them and then
/// replacing every newline byte with `$` and a newline.
pub proof fn lemma_show_ends(f: Flags, srcs: Seq<Seq<u8>>)
    ensures
        cat_output((Flags { show_ends: true, ..f }), srcs) == replace_byte(
            cat_output((Flags { show_ends: false, ..f }), srcs),
            NL,
            seq![36u8, NL],
        ),
{
    let f0 = Flags { show_ends: false, ..f };
    let f1 = Flags { show_ends: true, ..f };
    let r = seq![36u8, NL];
    assert forall|p: u8, b: u8, i: nat| #[trigger]
        step(f1, p, b, i) == replace_byte(step(f0, p, b, i), NL, r) by {
        let bd = body(f0, p, b);
        if b == NL {
            if !(b == TAB && f.show_tabs) && !(p == NL && f.squeeze_blank) {
                lemma_replace_single(NL, r);
            }
        } else {
            lemma_body_plain(f0, p, b);
            lemma_replace_absent(bd, NL, r);
        }
        if numbered_here(f0, p, b) {
            lemma_prefix_plain(i + 1);
            lemma_replace_absent(line_prefix(i + 1), NL, r);
            lemma_replace_concat(line_prefix(i + 1), bd, NL, r);
        }
    }
    lemma_render_all_replaced(f0, f1, NL, r, srcs, 0);
}

/// Showing tabs is the same as writing the output without it and then
/// replacing every tab byte with `^I`: no other byte is affected.
pub proof fn lemma_show_tabs(f: Flags, srcs: Seq<Seq<u8>>)
    ensures
        cat_output((Flags { show_tabs: true, ..f }), srcs) == replace_byte(
            cat_output((Flags { show_tabs: false, ..f }), srcs),
            TAB,
            seq![94u8, 73u8],
        ),
{
    let f0 = Flags { show_tabs: false, ..f };
    let f1 = Flags { show_tabs: true, ..f };
    let r = seq![94u8, 73u8];
    assert forall|p: u8, b: u8, i: nat| #[trigger]
        step(f1, p, b, i) == replace_byte(step(f0, p, b, i), TAB, r) by {
        let bd = body(f0, p, b);
        lemma_escape_plain(b);
        if b == TAB {
            assert(bd == seq![TAB]);
            lemma_replace_single(TAB, r);
        } else {
            assert(free_of(bd, TAB));
            lemma_replace_absent(bd, TAB, r);
        }
        if numbered_here(f0, p, b) {
            lemma_prefix_plain(i + 1);
            lemma_replace_absent(line_prefix(i + 1), TAB, r);
            lemma_replace_concat(line_prefix(i + 1), bd, TAB, r);
        }
    }
    lemma_render_all_replaced(f0, f1, TAB, r, srcs, 0);
}

/// With `number_nonblank` set, setting `number` as well changes nothing:
/// empty lines stay unnumbered.
pub proof fn lemma_nonblank_wins(f: Flags, srcs: Seq<Seq<u8>>)
    requires
        f.number_nonblank,
    ensures
        cat_output((Flags { number: true, ..f }), srcs) == cat_output(
            (Flags { number: false, ..f }),
            srcs,
        ),
{
    let f0 = Flags { number: false, ..f };
    let f1 = Flags { number: true, ..f };
    assert forall|p: u8, b: u8, i: nat| #[trigger]
        step(f1, p, b, i) == replace_byte(step(f0, p, b, i), NL, seq![NL]) by {
        lemma_replace_self(step(f0, p, b, i), NL);
    }
    lemma_render_all_replaced(f0, f1, NL, seq![NL], srcs, 0);
    lemma_replace_self(cat_output(f0, srcs), NL);
}

/// Whether `s` is empty or ends a line.
pub open spec fn ends_line(s: Seq<u8>) -> bool {
    s.len() == 0 || s.last() == NL
}

/// Whether every newline byte of `s` comes right after a byte other than a
/// newline: `s` holds no empty line, let alone two in a row.
pub open spec fn newlines_follow_text(s: Seq<u8>) -> bool {
    forall|k: int| 0 <= k < s.len() && #[trigger] s[k] == NL ==> k > 0 && s[k - 1] != NL
}

proof fn lemma_render_plain(src: Seq<u8>, start: nat)
    ensures
        render(flags_spec(Seq::empty()), src, start) == src,
        count_numbered(flags_spec(Seq::empty()), src) == 0,
    decreases src.len(),
{
    let f = flags_spec(Seq::empty());
    assert(!f.show_tabs && !f.show_ends && !f.squeeze_blank && !f.number && !f.number_nonblank
        && !f.show_nonprinting);
    if src.len() > 0 {
        lemma_render_plain(src.drop_last(), start);
        assert(src.drop_last().push(src.last()) == src);
    }
}

proof fn lemma_render_all_plain(srcs: Seq<Seq<u8>>)
    ensures
        render_all(flags_spec(Seq::empty()), srcs, 0) == srcs.flatten(),
    decreases srcs.len(),
{
    if srcs.len() > 0 {
        lemma_render_all_plain(srcs.drop_last());
        lemma_render_plain(srcs.last(), count_all(flags_spec(Seq::empty()), srcs.drop_last()));
        srcs.drop_last().lemma_flatten_push(srcs.last());
        assert(srcs.drop_last().push(srcs.last()) == srcs);
    }
}

/// With no option set the output is the sources' bytes, concatenated in order
/// and unchanged.
pub proof fn lemma_identity(srcs: Seq<Seq<u8>>)
    ensures
        cat_output(flags_spec(Seq::empty()), srcs) == srcs.flatten(),
{
    lemma_render_all_plain(srcs);
}

proof fn lemma_render_all_split(f: Flags, a: Seq<Seq<u8>>, b: Seq<Seq<u8>>, start: nat)
    ensures
        render_all(f, a + b, start) == render_all(f, a, start) + render_all(
            f,
            b,
            start + count_all(f, a),
        ),
        count_all(f, a + b) == count_all(f, a) + count_all(f, b),
    decreases b.len(),
{
    if b.len() == 0 {
        assert(a + b == a);
    } else {
        lemma_render_all_split(f, a, b.drop_last(), start);
        assert((a + b).drop_last() == a + b.drop_last());
    }
}

/// Splitting the list of sources splits the output: the second part is
/// written as on its own, with line numbers running on from the first part.
pub proof fn lemma_sources_split(f: Flags, a: Seq<Seq<u8>>, b: Seq<Seq<u8>>)
    ensures
        cat_output(f, a + b) == cat_output(f, a) + render_all(f, b, count_all(f, a)),
{
    lemma_render_all_split(f, a, b, 0);
}

proof fn lemma_render_boundary(f: Flags, a: Seq<u8>, b: Seq<u8>, start: nat)
    requires
        ends_line(a),
    ensures
        render(f, a + b, start) == render(f, a, start) + render(
            f,
            b,
            start + count_numbered(f, a),
        ),
        count_numbered(f, a + b) == count_numbered(f, a) + count_numbered(f, b),
    decreases b.len(),
{
    if b.len() == 0 {
        assert(a + b == a);
    } else {
        lemma_render_boundary(f, a, b.drop_last(), start);
        let m = b.len() - 1;
        let n = a.len() + m;
        assert((a + b).drop_last() == a + b.drop_last());
        assert((a + b)[n] == b[m]);
        assert(prev_of(a + b, n) == prev_of(b, m));
    }
}

proof fn lemma_flatten_ends_line(srcs: Seq<Seq<u8>>)
    requires
        forall|i: int| 0 <= i < srcs.len() ==> ends_line(#[trigger] srcs[i]),
    ensures
        ends_line(srcs.flatten()),
    decreases srcs.len(),
{
    if srcs.len() > 0 {
        lemma_flatten_ends_line(srcs.drop_last());
        srcs.drop_last().lemma_flatten_push(srcs.last());
        assert(srcs.drop_last().push(srcs.last()) == srcs);
        assert(ends_line(srcs[srcs.len() - 1]));
    }
}

proof fn lemma_concatenated_count(f: Flags, srcs: Seq<Seq<u8>>)
    requires
        forall|i: int| 0 <= i < srcs.len() - 1 ==> ends_line(#[trigger] srcs[i]),
    ensures
        cat_output(f, srcs) == render(f, srcs.flatten(), 0),
        count_all(f, srcs) == count_numbered(f, srcs.flatten()),
    decreases srcs.len(),
{
    if srcs.len() > 0 {
        let init = srcs.drop_last();
        assert forall|i: int| 0 <= i < init.len() implies ends_line(#[trigger] init[i]) by {
            assert(init[i] == srcs[i]);
        }
        lemma_concatenated_count(f, init);
        lemma_flatten_ends_line(init);
        lemma_render_boundary(f, init.flatten(), srcs.last(), 0);
        init.lemma_flatten_push(srcs.last());
        assert(init.push(srcs.last()) == srcs);
    } else {
        assert(srcs.flatten() == Seq::<u8>::empty());
    }
}

/// Where every source but the last is empty or ends a line, the output is
/// that of one source holding all their bytes: a source boundary acts only by
/// starting a fresh line, and line numbers run on across it.
pub proof fn lemma_concatenated(f: Flags, srcs: Seq<Seq<u8>>)
    requires
        forall|i: int| 0 <= i < srcs.len() - 1 ==> ends_line(#[trigger] srcs[i]),
    ensures
        cat_output(f, srcs) == render(f, srcs.flatten(), 0),
{
    lemma_concatenated_count(f, srcs);
}

proof fn lemma_follow_concat(a: Seq<u8>, b: Seq<u8>)
    requires
        newlines_follow_text(a),
        newlines_follow_text(b),
    ensures
        newlines_follow_text(a + b),
{
    assert forall|k: int| 0 <= k < (a + b).len() && #[trigger] (a + b)[k] == NL implies k > 0 && (a
        + b)[k - 1] != NL by {
        if k < a.len() {
            assert(a[k] == NL);
        } else {
            assert(b[k - a.len()] == NL);
        }
    }
}

proof fn lemma_follow_plain(a: Seq<u8>, b: Seq<u8>)
    requires
        newlines_follow_text(a),
        free_of(b, NL),
    ensures
        newlines_follow_text(a + b),
{
    assert forall|k: int| 0 <= k < (a + b).len() && #[trigger] (a + b)[k] == NL implies k > 0 && (a
        + b)[k - 1] != NL by {
        if k < a.len() {
            assert(a[k] == NL);
        } else {
            assert(b[k - a.len()] == NL);
        }
    }
}

proof fn lemma_squeeze_render(f: Flags, src: Seq<u8>, start: nat)
    requires
        f.squeeze_blank,
    ensures
        newlines_follow_text(render(f, src, start)),
        src.len() > 0 && src.last() != NL ==> render(f, src, start).len() > 0 && render(
            f,
            src,
            start,
        ).last() != NL,
    decreases src.len(),
{
    if src.len() > 0 {
        let n = src.len() - 1;
        let init = src.drop_last();
        lemma_squeeze_render(f, init, start);
        let rr = render(f, init, start);
        let p = prev_of(src, n);
        let b = src[n];
        let i = start + count_numbered(f, init);
        let st = step(f, p, b, i);
        let bd = body(f, p, b);
        assert(render(f, src, start) == rr + st);
        if b != NL {
            lemma_body_plain(f, p, b);
        }
        if p == NL {
            if numbered_here(f, p, b) {
                lemma_prefix_plain(i + 1);
                let pre = line_prefix(i + 1);
                assert(st == pre + bd);
                assert forall|k: int| 0 <= k < st.len() implies st[k] != NL by {
                    if k < pre.len() {
                        assert(st[k] == pre[k]);
                    } else {
                        assert(st[k] == bd[k - pre.len()]);
                    }
                }
            }
            lemma_follow_plain(rr, st);
        } else {
            assert(n > 0 && init.last() == p);
            if b == NL {
                let all = rr + st;
                assert forall|k: int| 0 <= k < all.len() && #[trigger] all[k] == NL implies k > 0
                    && all[k - 1] != NL by {
                    if k < rr.len() {
                        assert(rr[k] == NL);
                    }
                }
            } else {
                lemma_follow_plain(rr, st);
            }
        }
    }
}

proof fn lemma_squeeze_render_all(f: Flags, srcs: Seq<Seq<u8>>, start: nat)
    requires
        f.squeeze_blank,
    ensures
        newlines_follow_text(render_all(f, srcs, start)),
    decreases srcs.len(),
{
    if srcs.len() > 0 {
        lemma_squeeze_render_all(f, srcs.drop_last(), start);
        lemma_squeeze_render(f, srcs.last(), start + count_all(f, srcs.drop_last()));
        lemma_follow_concat(
            render_all(f, srcs.drop_last(), start),
            render(f, srcs.last(), start + count_all(f, srcs.drop_last())),
        );
    }
}

/// With `squeeze_blank` set, every newline of the output comes right after a
/// byte other than a newline: no run of newline bytes survives, and no two
/// empty lines stand in a row.
pub proof fn lemma_squeeze_blank(f: Flags, srcs: Seq<Seq<u8>>)
    requires
        f.squeeze_blank,
    ensures
        newlines_follow_text(cat_output(f, srcs)),
{
    lemma_squeeze_render_all(f, srcs, 0);
}

} // verus!
