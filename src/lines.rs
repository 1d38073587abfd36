//! A byte stream seen as a sequence of lines.
use vstd::prelude::*;

verus! {

/// The line break byte.
pub const NEWLINE: u8 = 10;

/// The carriage return byte.
pub const CR: u8 = 13;

/// The pieces of `s` between occurrences of `sep`, as `str::split` gives
/// them: always at least one piece, the last one after the last separator.
pub open spec fn segments<A>(s: Seq<A>, sep: A) -> Seq<Seq<A>>
    decreases s.len(),
{
    if s.len() == 0 {
        seq![Seq::empty()]
    } else {
        let prev = segments(s.drop_last(), sep);
        if s.last() == sep {
            prev.push(Seq::empty())
        } else {
            prev.update(prev.len() - 1, prev.last().push(s.last()))
        }
    }
}

/// The lines of `s` that a line break has ended.
pub open spec fn complete_lines(s: Seq<u8>) -> Seq<Seq<u8>> {
    segments(s, NEWLINE).drop_last()
}

/// What follows the last line break of `s`.
pub open spec fn trailing(s: Seq<u8>) -> Seq<u8> {
    segments(s, NEWLINE).last()
}

/// The lines of `s`: each is the text before a line break; a final
/// fragment without a line break counts as one more line.
pub open spec fn lines_of(s: Seq<u8>) -> Seq<Seq<u8>> {
    if trailing(s).len() == 0 {
        complete_lines(s)
    } else {
        complete_lines(s).push(trailing(s))
    }
}

/// `l` without one carriage return at its end.
pub open spec fn strip_cr(l: Seq<u8>) -> Seq<u8> {
    if l.len() > 0 && l.last() == CR {
        l.drop_last()
    } else {
        l
    }
}

/// The ended lines of `s` as text: each without its break, where a
/// carriage return before the line feed belongs to the break.
pub open spec fn ended_text(s: Seq<u8>) -> Seq<Seq<u8>> {
    complete_lines(s).map_values(|l: Seq<u8>| strip_cr(l))
}

/// The lines of `s` as text: the ended lines without their breaks (a
/// carriage return and line feed count as one break), then a final
/// fragment without a break, as it is.
pub open spec fn text_lines(s: Seq<u8>) -> Seq<Seq<u8>> {
    if trailing(s).len() == 0 {
        ended_text(s)
    } else {
        ended_text(s).push(trailing(s))
    }
}

/// The ended lines of `s`, each with its line feed.
pub open spec fn ended_raw(s: Seq<u8>) -> Seq<Seq<u8>> {
    complete_lines(s).map_values(|l: Seq<u8>| l.push(NEWLINE))
}

/// The lines of `s` byte for byte: each ended line with its line feed, then
/// a final fragment as it is.
pub open spec fn raw_lines(s: Seq<u8>) -> Seq<Seq<u8>> {
    if trailing(s).len() == 0 {
        ended_raw(s)
    } else {
        ended_raw(s).push(trailing(s))
    }
}

/// The pieces joined, in order.
pub open spec fn concat(ls: Seq<Seq<u8>>) -> Seq<u8>
    decreases ls.len(),
{
    if ls.len() == 0 {
        Seq::empty()
    } else {
        concat(ls.drop_last()) + ls.last()
    }
}

/// Each line followed by a line break.
pub open spec fn unlines(ls: Seq<Seq<u8>>) -> Seq<u8>
    decreases ls.len(),
{
    if ls.len() == 0 {
        Seq::empty()
    } else {
        unlines(ls.drop_last()) + ls.last().push(NEWLINE)
    }
}

pub proof fn lemma_unlines_push(ls: Seq<Seq<u8>>, l: Seq<u8>)
    ensures
        unlines(ls.push(l)) == unlines(ls) + l.push(NEWLINE),
{
    assert(ls.push(l).drop_last() =~= ls);
}

/// No element of `l` is `sep`.
pub open spec fn free_of<A>(l: Seq<A>, sep: A) -> bool {
    forall|i: int| 0 <= i < l.len() ==> l[i] != sep
}

pub proof fn lemma_segments_nonempty<A>(s: Seq<A>, sep: A)
    ensures
        segments(s, sep).len() >= 1,
    decreases s.len(),
{
    if s.len() > 0 {
        lemma_segments_nonempty(s.drop_last(), sep);
    }
}

/// How the pieces change when one more element arrives.
pub proof fn lemma_segments_push<A>(s: Seq<A>, sep: A, c: A)
    ensures
        segments(s.push(c), sep) == (if c == sep {
            segments(s, sep).push(Seq::empty())
        } else {
            segments(s, sep).update(
                segments(s, sep).len() - 1,
                segments(s, sep).last().push(c),
            )
        }),
        segments(s.push(c), sep).len() >= 1,
{
    assert(s.push(c).drop_last() =~= s);
    lemma_segments_nonempty(s, sep);
    lemma_segments_nonempty(s.push(c), sep);
}

/// Appending a run without separators extends the last piece.
pub proof fn lemma_segments_append_free<A>(s: Seq<A>, t: Seq<A>, sep: A)
    requires
        free_of(t, sep),
    ensures
        segments(s + t, sep) == segments(s, sep).update(
            segments(s, sep).len() - 1,
            segments(s, sep).last() + t,
        ),
    decreases t.len(),
{
    lemma_segments_nonempty(s, sep);
    if t.len() == 0 {
        assert(s + t =~= s);
        assert(segments(s, sep).last() + t =~= segments(s, sep).last());
        assert(segments(s, sep).update(segments(s, sep).len() - 1, segments(s, sep).last())
            =~= segments(s, sep));
    } else {
        let t0 = t.drop_last();
        assert(free_of(t0, sep));
        lemma_segments_append_free(s, t0, sep);
        assert(s + t =~= (s + t0).push(t.last()));
        lemma_segments_push(s + t0, sep, t.last());
        assert(segments(s, sep).last() + t =~= (segments(s, sep).last() + t0).push(t.last()));
        assert(segments(s + t, sep) =~= segments(s, sep).update(
            segments(s, sep).len() - 1,
            segments(s, sep).last() + t,
        ));
    }
}

/// The pieces of lines joined with separators are those lines, and an
/// empty piece after the last separator.
pub proof fn lemma_segments_unlines(ls: Seq<Seq<u8>>)
    requires
        forall|i: int| 0 <= i < ls.len() ==> free_of(#[trigger] ls[i], NEWLINE),
    ensures
        segments(unlines(ls), NEWLINE) == ls.push(Seq::empty()),
    decreases ls.len(),
{
    if ls.len() == 0 {
        assert(segments(unlines(ls), NEWLINE) =~= ls.push(Seq::empty()));
    } else {
        let init = ls.drop_last();
        let l = ls.last();
        assert forall|i: int| 0 <= i < init.len() implies free_of(#[trigger] init[i], NEWLINE) by {
            assert(init[i] == ls[i]);
        }
        lemma_segments_unlines(init);
        assert(free_of(ls[ls.len() - 1], NEWLINE));
        let u = unlines(init);
        assert(unlines(ls) =~= (u + l).push(NEWLINE));
        lemma_segments_append_free(u, l, NEWLINE);
        lemma_segments_push(u + l, NEWLINE, NEWLINE);
        assert(Seq::<u8>::empty() + l =~= l);
        assert(segments(unlines(ls), NEWLINE) =~= ls.push(Seq::empty()));
    }
}

/// Splitting joined lines gives them back.
pub proof fn lemma_lines_of_unlines(ls: Seq<Seq<u8>>)
    requires
        forall|i: int| 0 <= i < ls.len() ==> free_of(#[trigger] ls[i], NEWLINE),
    ensures
        lines_of(unlines(ls)) == ls,
        complete_lines(unlines(ls)) == ls,
        trailing(unlines(ls)).len() == 0,
{
    lemma_segments_unlines(ls);
    assert(ls.push(Seq::empty()).drop_last() =~= ls);
}

/// No piece holds the separator.
pub proof fn lemma_segments_free<A>(s: Seq<A>, sep: A)
    ensures
        forall|i: int|
            0 <= i < segments(s, sep).len() ==> free_of(#[trigger] segments(s, sep)[i], sep),
    decreases s.len(),
{
    lemma_segments_nonempty(s, sep);
    if s.len() > 0 {
        lemma_segments_free(s.drop_last(), sep);
        lemma_segments_nonempty(s.drop_last(), sep);
        let prev = segments(s.drop_last(), sep);
        if s.last() != sep {
            let l = prev.last();
            assert(free_of(prev[prev.len() - 1], sep));
            assert(free_of(l.push(s.last()), sep)) by {
                assert forall|j: int| 0 <= j < l.push(s.last()).len() implies l.push(s.last())[j] != sep by {
                    if j < l.len() {
                        assert(l.push(s.last())[j] == l[j]);
                    }
                }
            }
        }
    }
}

/// No line of `s` holds a line break.
pub proof fn lemma_lines_free(s: Seq<u8>)
    ensures
        forall|i: int| 0 <= i < lines_of(s).len() ==> free_of(#[trigger] lines_of(s)[i], NEWLINE),
        forall|i: int|
            0 <= i < complete_lines(s).len() ==> free_of(#[trigger] complete_lines(s)[i], NEWLINE),
        free_of(trailing(s), NEWLINE),
{
    lemma_segments_free(s, NEWLINE);
    lemma_segments_nonempty(s, NEWLINE);
    let segs = segments(s, NEWLINE);
    assert(free_of(segs[segs.len() - 1], NEWLINE));
    assert forall|i: int| 0 <= i < complete_lines(s).len() implies free_of(#[trigger] complete_lines(s)[i], NEWLINE) by {
        assert(complete_lines(s)[i] == segs[i]);
    }
    assert forall|i: int| 0 <= i < lines_of(s).len() implies free_of(#[trigger] lines_of(s)[i], NEWLINE) by {
        if i < complete_lines(s).len() {
            assert(lines_of(s)[i] == complete_lines(s)[i]);
        }
    }
}

/// How the lines of `s` change when one more byte arrives.
pub proof fn lemma_lines_push(s: Seq<u8>, b: u8)
    ensures
        b == NEWLINE ==> complete_lines(s.push(b)) == complete_lines(s).push(trailing(s)),
        b == NEWLINE ==> trailing(s.push(b)).len() == 0,
        b == NEWLINE ==> ended_text(s.push(b)) == ended_text(s).push(strip_cr(trailing(s))),
        b == NEWLINE ==> ended_raw(s.push(b)) == ended_raw(s).push(trailing(s).push(NEWLINE)),
        b != NEWLINE ==> complete_lines(s.push(b)) == complete_lines(s),
        b != NEWLINE ==> trailing(s.push(b)) == trailing(s).push(b),
        b != NEWLINE ==> ended_text(s.push(b)) == ended_text(s),
        b != NEWLINE ==> ended_raw(s.push(b)) == ended_raw(s),
{
    lemma_segments_push(s, NEWLINE, b);
    lemma_segments_nonempty(s, NEWLINE);
    if b == NEWLINE {
        assert(complete_lines(s.push(b)) =~= complete_lines(s).push(trailing(s)));
        assert(trailing(s.push(b)) =~= Seq::<u8>::empty());
        assert(ended_text(s.push(b)) =~= ended_text(s).push(strip_cr(trailing(s))));
        assert(ended_raw(s.push(b)) =~= ended_raw(s).push(trailing(s).push(NEWLINE)));
    } else {
        assert(complete_lines(s.push(b)) =~= complete_lines(s));
    }
}

pub proof fn lemma_concat_push(ls: Seq<Seq<u8>>, l: Seq<u8>)
    ensures
        concat(ls.push(l)) == concat(ls) + l,
{
    assert(ls.push(l).drop_last() =~= ls);
}

/// The lines of `s` byte for byte, joined, give `s` back.
pub proof fn lemma_concat_raw_lines(s: Seq<u8>)
    ensures
        concat(raw_lines(s)) == s,
    decreases s.len(),
{
    if s.len() == 0 {
        lemma_segments_nonempty(s, NEWLINE);
        assert(complete_lines(s) =~= Seq::<Seq<u8>>::empty());
        assert(raw_lines(s) =~= Seq::<Seq<u8>>::empty());
    } else {
        let s0 = s.drop_last();
        let b = s.last();
        assert(s0.push(b) =~= s);
        lemma_concat_raw_lines(s0);
        lemma_lines_push(s0, b);
        let t = trailing(s0);
        let e = ended_raw(s0);
        let c0 = concat(e);
        if t.len() == 0 {
            assert(raw_lines(s0) == e);
        } else {
            lemma_concat_push(e, t);
        }
        assert(concat(raw_lines(s0)) == c0 + t) by {
            if t.len() == 0 {
                assert(c0 + t =~= c0);
            }
        }
        if b == NEWLINE {
            lemma_concat_push(e, t.push(NEWLINE));
            assert(c0 + t.push(NEWLINE) =~= (c0 + t).push(NEWLINE));
        } else {
            lemma_concat_push(e, t.push(b));
            assert(c0 + t.push(b) =~= (c0 + t).push(b));
        }
    }
}

} // verus!
