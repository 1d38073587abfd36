//! Laws of the builtin filters and of chains of them.
use vstd::prelude::*;
use crate::chain::pipeline_output;
use crate::filter::{has_pattern, kept, matcher, passed_output, stage_output, Builtin};
use crate::lines::{
    complete_lines, ended_text, free_of, lemma_concat_raw_lines, lemma_lines_free, lemma_lines_of_unlines,
    lines_of, raw_lines, strip_cr, text_lines, trailing, unlines, CR, NEWLINE,
};

verus! {

proof fn lemma_filter_keeps_free(ls: Seq<Seq<u8>>, pred: spec_fn(Seq<u8>) -> bool)
    requires
        forall|i: int| 0 <= i < ls.len() ==> free_of(#[trigger] ls[i], NEWLINE),
    ensures
        forall|i: int| 0 <= i < ls.filter(pred).len() ==> free_of(#[trigger] ls.filter(pred)[i], NEWLINE),
        forall|i: int| 0 <= i < ls.filter(pred).len() ==> pred(#[trigger] ls.filter(pred)[i]),
    decreases ls.len(),
{
    reveal(Seq::filter);
    if ls.len() > 0 {
        let init = ls.drop_last();
        assert forall|i: int| 0 <= i < init.len() implies free_of(#[trigger] init[i], NEWLINE) by {
            assert(init[i] == ls[i]);
        }
        lemma_filter_keeps_free(init, pred);
        assert(free_of(ls[ls.len() - 1], NEWLINE));
        let f0 = init.filter(pred);
        let f = ls.filter(pred);
        assert forall|i: int| 0 <= i < f.len() implies free_of(#[trigger] f[i], NEWLINE) && pred(f[i]) by {
            if i < f0.len() {
                assert(f[i] == f0[i]);
            } else {
                assert(f[i] == ls.last());
            }
        }
    }
}

proof fn lemma_filter_all(ls: Seq<Seq<u8>>, pred: spec_fn(Seq<u8>) -> bool)
    requires
        forall|i: int| 0 <= i < ls.len() ==> pred(#[trigger] ls[i]),
    ensures
        ls.filter(pred) == ls,
    decreases ls.len(),
{
    reveal(Seq::filter);
    if ls.len() > 0 {
        let init = ls.drop_last();
        assert forall|i: int| 0 <= i < init.len() implies pred(#[trigger] init[i]) by {
            assert(init[i] == ls[i]);
        }
        lemma_filter_all(init, pred);
        assert(pred(ls[ls.len() - 1]));
        assert(init.push(ls.last()) =~= ls);
    }
}

proof fn lemma_filter_none(ls: Seq<Seq<u8>>, pred: spec_fn(Seq<u8>) -> bool)
    requires
        forall|i: int| 0 <= i < ls.len() ==> !pred(#[trigger] ls[i]),
    ensures
        ls.filter(pred).len() == 0,
    decreases ls.len(),
{
    reveal(Seq::filter);
    if ls.len() > 0 {
        let init = ls.drop_last();
        assert forall|i: int| 0 <= i < init.len() implies !pred(#[trigger] init[i]) by {
            assert(init[i] == ls[i]);
        }
        lemma_filter_none(init, pred);
        assert(!pred(ls[ls.len() - 1]));
    }
}

/// Running the first `k` filters of a row and then the rest on what they
/// wrote gives what the whole row writes.
pub proof fn lemma_pipeline_split(rules: Seq<(Builtin, Seq<u8>)>, input: Seq<u8>, k: int)
    requires
        0 <= k <= rules.len(),
    ensures
        pipeline_output(rules, input) == pipeline_output(
            rules.skip(k),
            pipeline_output(rules.take(k), input),
        ),
    decreases rules.len(),
{
    if rules.len() == k {
        assert(rules.take(k) =~= rules);
        assert(rules.skip(k) =~= Seq::<(Builtin, Seq<u8>)>::empty());
    } else {
        let init = rules.drop_last();
        lemma_pipeline_split(init, input, k);
        assert(init.take(k) =~= rules.take(k));
        assert(rules.skip(k).drop_last() =~= init.skip(k));
        assert(rules.skip(k).last() == rules.last());
    }
}

/// With no filter, what is written is what comes out.
pub proof fn lemma_no_stage(input: Seq<u8>)
    ensures
        pipeline_output(Seq::empty(), input) == input,
{
}

/// No text line of `s` holds a line break.
pub proof fn lemma_text_lines_free(s: Seq<u8>)
    ensures
        forall|i: int| 0 <= i < text_lines(s).len() ==> free_of(#[trigger] text_lines(s)[i], NEWLINE),
{
    lemma_lines_free(s);
    let c = complete_lines(s);
    assert forall|i: int| 0 <= i < text_lines(s).len() implies free_of(#[trigger] text_lines(s)[i], NEWLINE) by {
        if i < c.len() {
            assert(text_lines(s)[i] == strip_cr(c[i]));
            assert(free_of(c[i], NEWLINE));
            assert forall|j: int| 0 <= j < strip_cr(c[i]).len() implies strip_cr(c[i])[j] != NEWLINE by {
                assert(strip_cr(c[i])[j] == c[i][j]);
            }
        } else {
            assert(text_lines(s)[i] == trailing(s));
        }
    }
}

/// Dropping a carriage return at the end keeps a pattern that does not
/// itself end with one.
proof fn lemma_strip_keeps_pattern(l: Seq<u8>, p: Seq<u8>)
    requires
        has_pattern(l, p),
        !(p.len() > 0 && p.last() == CR),
    ensures
        has_pattern(strip_cr(l), p),
{
    let i = choose|i: int| 0 <= i && i + p.len() <= l.len() && #[trigger] l.subrange(i, i + p.len()) == p;
    let t = strip_cr(l);
    if p.len() == 0 {
        assert(t.subrange(0int, 0int + p.len()) =~= p);
    } else {
        if l.len() > 0 && l.last() == CR {
            assert(i + p.len() < l.len()) by {
                if i + p.len() == l.len() {
                    assert(p.last() == l.subrange(i, i + p.len())[p.len() - 1]);
                }
            }
        }
        assert(t.subrange(i, i + p.len()) =~= l.subrange(i, i + p.len()));
    }
}

/// Keeping the lines that hold a pattern and then dropping the lines that
/// hold it leaves nothing, whatever the input, for a pattern that does not
/// end with a carriage return (the second stage reads a kept final
/// fragment's carriage return as part of the line break).
pub proof fn lemma_include_then_exclude(p: Seq<u8>, input: Seq<u8>)
    requires
        !(p.len() > 0 && p.last() == CR),
    ensures
        pipeline_output(seq![(Builtin::Include, p), (Builtin::Exclude, p)], input).len() == 0,
{
    let rules = seq![(Builtin::Include, p), (Builtin::Exclude, p)];
    assert(rules.drop_last() =~= seq![(Builtin::Include, p)]);
    assert(rules.drop_last().drop_last() =~= Seq::<(Builtin, Seq<u8>)>::empty());
    let ls = text_lines(input);
    lemma_text_lines_free(input);
    let kept1 = ls.filter(matcher(p, true));
    lemma_filter_keeps_free(ls, matcher(p, true));
    let mid = stage_output(Builtin::Include, p, input);
    assert(mid == unlines(kept1));
    lemma_lines_of_unlines(kept1);
    let again = text_lines(mid);
    assert(again == kept1.map_values(|l: Seq<u8>| strip_cr(l)));
    assert forall|i: int| 0 <= i < again.len() implies !#[trigger] matcher(p, false)(again[i]) by {
        lemma_strip_keeps_pattern(kept1[i], p);
    }
    lemma_filter_none(again, matcher(p, false));
    assert(unlines(again.filter(matcher(p, false))) == Seq::<u8>::empty());
    assert(pipeline_output(rules.drop_last().drop_last(), input) == input);
    assert(pipeline_output(rules.drop_last(), input) == mid);
    assert(pipeline_output(rules, input) == stage_output(Builtin::Exclude, p, mid));
}

/// An empty pattern is in every line: the stage `include ""` passes every
/// text line on, each ended with a line feed.
pub proof fn lemma_include_empty(input: Seq<u8>)
    ensures
        stage_output(Builtin::Include, Seq::empty(), input) == unlines(text_lines(input)),
        lines_of(stage_output(Builtin::Include, Seq::empty(), input)) == text_lines(input),
{
    let ls = text_lines(input);
    let e = Seq::<u8>::empty();
    assert forall|i: int| 0 <= i < ls.len() implies #[trigger] matcher(e, true)(ls[i]) by {
        assert(ls[i].subrange(0int, 0int + e.len()) =~= e);
    }
    lemma_filter_all(ls, matcher(e, true));
    assert(kept(Builtin::Include, e, ls) == ls);
    lemma_text_lines_free(input);
    lemma_lines_of_unlines(ls);
}

/// A line writer keeping the lines that hold the empty pattern passes its
/// input on byte for byte.
pub proof fn lemma_writer_include_empty(input: Seq<u8>)
    ensures
        passed_output(true, Seq::empty(), input) == input,
{
    let ls = raw_lines(input);
    let e = Seq::<u8>::empty();
    assert forall|i: int| 0 <= i < ls.len() implies #[trigger] matcher(e, true)(ls[i]) by {
        assert(ls[i].subrange(0int, 0int + e.len()) =~= e);
    }
    lemma_filter_all(ls, matcher(e, true));
    lemma_concat_raw_lines(input);
}

} // verus!
