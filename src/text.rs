//! Text of a command line: white space, words, and the `|` that separates
//! the stages.
use vstd::prelude::*;
use crate::lines::{lemma_segments_nonempty, lemma_segments_push, segments};

verus! {

/// The characters that Unicode counts as white space.
pub open spec fn is_white(c: char) -> bool {
    c == ' ' || ('\t' <= c && c <= '\r') || c == '\u{85}' || c == '\u{a0}' || c == '\u{1680}'
        || ('\u{2000}' <= c && c <= '\u{200a}') || c == '\u{2028}' || c == '\u{2029}'
        || c == '\u{202f}' || c == '\u{205f}' || c == '\u{3000}'
}

/// `s` without its leading white space.
pub open spec fn trim_start(s: Seq<char>) -> Seq<char>
    decreases s.len(),
{
    if s.len() > 0 && is_white(s[0]) {
        trim_start(s.drop_first())
    } else {
        s
    }
}

/// `s` without its trailing white space.
pub open spec fn trim_end(s: Seq<char>) -> Seq<char>
    decreases s.len(),
{
    if s.len() > 0 && is_white(s.last()) {
        trim_end(s.drop_last())
    } else {
        s
    }
}

/// `s` without white space at either end.
pub open spec fn trim(s: Seq<char>) -> Seq<char> {
    trim_end(trim_start(s))
}

/// The pieces of `s` between white space characters, empty ones included.
pub open spec fn white_pieces(s: Seq<char>) -> Seq<Seq<char>>
    decreases s.len(),
{
    if s.len() == 0 {
        seq![Seq::empty()]
    } else {
        let prev = white_pieces(s.drop_last());
        if is_white(s.last()) {
            prev.push(Seq::empty())
        } else {
            prev.update(prev.len() - 1, prev.last().push(s.last()))
        }
    }
}

/// Whether a piece holds at least one character.
pub open spec fn nonempty() -> spec_fn(Seq<char>) -> bool {
    |w: Seq<char>| w.len() > 0
}

/// The words of `s`: the runs of characters that are not white space.
pub open spec fn words(s: Seq<char>) -> Seq<Seq<char>> {
    white_pieces(s).filter(nonempty())
}

/// The views of a list of strings.
pub open spec fn views(v: Seq<String>) -> Seq<Seq<char>> {
    v.map_values(|w: String| w@)
}

/// Whether `c` is white space.
pub fn is_white_char(c: char) -> (r: bool)
    ensures
        r == is_white(c),
{
    c == ' ' || ('\t' <= c && c <= '\r') || c == '\u{85}' || c == '\u{a0}' || c == '\u{1680}'
        || ('\u{2000}' <= c && c <= '\u{200a}') || c == '\u{2028}' || c == '\u{2029}'
        || c == '\u{202f}' || c == '\u{205f}' || c == '\u{3000}'
}

/// The characters of `s`, in order.
pub fn chars_of(s: &str) -> (r: Vec<char>)
    ensures
        r@ == s@,
{
    let mut out: Vec<char> = Vec::new();
    for c in it: s.chars()
        invariant
            out@ == it.seq().take(it.index() as int),
            it.seq() == s@,
    {
        out.push(c);
    }
    out
}

/// The characters `s[a..b]` as a string.
fn string_of_range(s: &str, a: usize, b: usize) -> (r: String)
    requires
        a <= b <= s@.len(),
    ensures
        r@ == s@.subrange(a as int, b as int),
{
    s.substring_char(a, b).to_owned()
}

/// The characters `s[a0..b0]` without white space at either end, as a
/// string; `cs` holds the characters of `s`.
fn trim_range(s: &str, cs: &Vec<char>, a0: usize, b0: usize) -> (r: String)
    requires
        cs@ == s@,
        a0 <= b0 <= s@.len(),
    ensures
        r@ == trim(s@.subrange(a0 as int, b0 as int)),
{
    let ghost t = s@.subrange(a0 as int, b0 as int);
    let mut a: usize = a0;
    while a < b0 && is_white_char(cs[a])
        invariant
            cs@ == s@,
            a0 <= a <= b0 <= s@.len(),
            trim_start(t) == trim_start(s@.subrange(a as int, b0 as int)),
        decreases b0 - a,
    {
        proof {
            assert(s@.subrange(a as int, b0 as int).drop_first() =~= s@.subrange(a + 1, b0 as int));
        }
        a = a + 1;
    }
    proof {
        let u = s@.subrange(a as int, b0 as int);
        if u.len() > 0 {
            assert(u[0] == cs@[a as int]);
        }
        assert(trim_start(u) == u);
    }
    let mut b: usize = b0;
    while b > a && is_white_char(cs[b - 1])
        invariant
            cs@ == s@,
            a <= b <= b0 <= s@.len(),
            trim_end(s@.subrange(a as int, b0 as int)) == trim_end(s@.subrange(a as int, b as int)),
        decreases b,
    {
        proof {
            assert(s@.subrange(a as int, b as int).drop_last() =~= s@.subrange(a as int, b - 1));
        }
        b = b - 1;
    }
    proof {
        let u = s@.subrange(a as int, b as int);
        if u.len() > 0 {
            assert(u.last() == cs@[b - 1]);
        }
        assert(trim_end(u) == u);
    }
    string_of_range(s, a, b)
}

/// Where `s` is cut by the `|` characters: the command, then each stage,
/// all without white space at either end.
pub open spec fn pipe_parts(s: Seq<char>) -> Seq<Seq<char>> {
    segments(s, '|').map_values(|x: Seq<char>| trim(x))
}

proof fn lemma_white_pieces_push(s: Seq<char>, c: char)
    ensures
        white_pieces(s).len() >= 1,
        white_pieces(s.push(c)) == (if is_white(c) {
            white_pieces(s).push(Seq::empty())
        } else {
            white_pieces(s).update(white_pieces(s).len() - 1, white_pieces(s).last().push(c))
        }),
    decreases s.len(),
{
    assert(s.push(c).drop_last() =~= s);
    if s.len() > 0 {
        lemma_white_pieces_push(s.drop_last(), s.last());
        assert(s.drop_last().push(s.last()) =~= s);
    }
}

proof fn lemma_filter_push_nonempty(ps: Seq<Seq<char>>, w: Seq<char>)
    ensures
        ps.push(w).filter(nonempty()) == (if w.len() > 0 {
            ps.filter(nonempty()).push(w)
        } else {
            ps.filter(nonempty())
        }),
{
    reveal(Seq::filter);
    assert(ps.push(w).drop_last() =~= ps);
}

/// The words of `s`, split at white space.
pub fn split_words(s: &str) -> (r: Vec<String>)
    ensures
        views(r@) == words(s@),
{
    let cs = chars_of(s);
    let mut ws: Vec<String> = Vec::new();
    let mut st: usize = 0;
    let mut i: usize = 0;
    proof {
        assert(cs@.take(0) =~= Seq::<char>::empty());
        assert(views(ws@) =~= Seq::<Seq<char>>::empty());
        reveal(Seq::filter);
    }
    while i < cs.len()
        invariant
            cs@ == s@,
            st <= i <= cs@.len(),
            white_pieces(cs@.take(i as int)).len() >= 1,
            views(ws@) == white_pieces(cs@.take(i as int)).drop_last().filter(nonempty()),
            white_pieces(cs@.take(i as int)).last() == cs@.subrange(st as int, i as int),
        decreases cs.len() - i,
    {
        let c = cs[i];
        let ghost pre = cs@.take(i as int);
        proof {
            assert(cs@.take(i + 1) =~= pre.push(c));
            lemma_white_pieces_push(pre, c);
            lemma_white_pieces_push(pre.push(c), ' ');
        }
        if is_white_char(c) {
            let ghost wp = white_pieces(pre);
            proof {
                assert(wp.drop_last().push(wp.last()) =~= wp);
                lemma_filter_push_nonempty(wp.drop_last(), wp.last());
                assert(white_pieces(cs@.take(i + 1)).drop_last() =~= wp);
            }
            if st < i {
                let w = string_of_range(s, st, i);
                proof {
                    assert(views(ws@.push(w)) =~= views(ws@).push(w@));
                }
                ws.push(w);
            }
            st = i + 1;
            proof {
                assert(cs@.subrange(st as int, i + 1) =~= Seq::<char>::empty());
            }
        } else {
            proof {
                let wp = white_pieces(pre);
                assert(white_pieces(cs@.take(i + 1)).drop_last() =~= wp.drop_last());
                assert(cs@.subrange(st as int, i + 1) =~= cs@.subrange(st as int, i as int).push(c));
            }
        }
        i = i + 1;
    }
    proof {
        assert(cs@.take(i as int) =~= cs@);
        let wp = white_pieces(cs@);
        assert(wp.drop_last().push(wp.last()) =~= wp);
        lemma_filter_push_nonempty(wp.drop_last(), wp.last());
    }
    if st < i {
        let w = string_of_range(s, st, i);
        proof {
            assert(views(ws@.push(w)) =~= views(ws@).push(w@));
        }
        ws.push(w);
    }
    ws
}

/// Cuts a command line at each `|`: the command before the first one, and
/// the stages after it, each without white space at either end.
pub fn split_on_pipes(line: &str) -> (r: (String, Vec<String>))
    ensures
        seq![r.0@] + views(r.1@) == pipe_parts(line@),
{
    let cs = chars_of(line);
    let mut parts: Vec<String> = Vec::new();
    let mut st: usize = 0;
    let mut i: usize = 0;
    proof {
        assert(cs@.take(0) =~= Seq::<char>::empty());
        assert(views(parts@) =~= Seq::<Seq<char>>::empty());
        assert(segments(Seq::<char>::empty(), '|').drop_last().map_values(|x: Seq<char>| trim(x))
            =~= Seq::<Seq<char>>::empty());
    }
    while i < cs.len()
        invariant
            cs@ == line@,
            st <= i <= cs@.len(),
            segments(cs@.take(i as int), '|').len() >= 1,
            views(parts@) == segments(cs@.take(i as int), '|').drop_last().map_values(|x: Seq<char>| trim(x)),
            segments(cs@.take(i as int), '|').last() == cs@.subrange(st as int, i as int),
        decreases cs.len() - i,
    {
        let c = cs[i];
        let ghost pre = cs@.take(i as int);
        proof {
            assert(cs@.take(i + 1) =~= pre.push(c));
            lemma_segments_push(pre, '|', c);
            lemma_segments_nonempty(pre, '|');
        }
        if c == '|' {
            let t = trim_range(line, &cs, st, i);
            proof {
                let sg = segments(pre, '|');
                assert(segments(cs@.take(i + 1), '|').drop_last() =~= sg);
                assert(sg.drop_last().push(sg.last()) =~= sg);
                assert(views(parts@.push(t)) =~= views(parts@).push(t@));
                assert(sg.map_values(|x: Seq<char>| trim(x)) =~= sg.drop_last().map_values(|x: Seq<char>| trim(x)).push(trim(sg.last())));
            }
            parts.push(t);
            st = i + 1;
            proof {
                assert(cs@.subrange(st as int, i + 1) =~= Seq::<char>::empty());
            }
        } else {
            proof {
                let sg = segments(pre, '|');
                assert(segments(cs@.take(i + 1), '|').drop_last() =~= sg.drop_last());
                assert(cs@.subrange(st as int, i + 1) =~= cs@.subrange(st as int, i as int).push(c));
            }
        }
        i = i + 1;
    }
    let t = trim_range(line, &cs, st, i);
    proof {
        assert(cs@.take(i as int) =~= cs@);
        let sg = segments(cs@, '|');
        assert(sg.drop_last().push(sg.last()) =~= sg);
        assert(views(parts@.push(t)) =~= views(parts@).push(t@));
        assert(sg.map_values(|x: Seq<char>| trim(x)) =~= sg.drop_last().map_values(|x: Seq<char>| trim(x)).push(trim(sg.last())));
    }
    parts.push(t);
    let ghost all = views(parts@);
    let base = parts.remove(0);
    proof {
        assert(seq![base@] + views(parts@) =~= all);
    }
    (base, parts)
}

} // verus!
