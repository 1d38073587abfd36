//! A filter that takes its input in pieces and hands on each line as soon
//! as the line is complete. It runs either as a stage of a pipeline, which
//! reads lines as text, or as a line writer, which passes the lines it
//! keeps byte for byte.
use vstd::prelude::*;
use crate::filter::{
    bytes_of, contains_bytes, decimal, decimal_bytes, early_output, filter_early, filter_output,
    first_match, has_pattern, kept, lemma_decimal_u64, lemma_first_match_range, matcher,
    passed_early, passed_output, pattern_of, stage_output, Builtin,
};
use crate::lines::{
    complete_lines, concat, ended_raw, ended_text, lemma_concat_push, lemma_lines_push,
    lemma_segments_nonempty, lemma_unlines_push, lines_of, raw_lines, strip_cr, text_lines,
    trailing, unlines, CR, NEWLINE,
};

verus! {

/// A running builtin filter.
pub struct FilterWriter {
    raw: bool,
    rule: Builtin,
    pattern: Vec<u8>,
    buf: Vec<u8>,
    begun: bool,
    lines: u64,
    finished: bool,
    received: Ghost<Seq<u8>>,
    emitted: Ghost<Seq<u8>>,
}

impl FilterWriter {
    pub closed spec fn rule(&self) -> Builtin {
        self.rule
    }

    /// Whether it runs as a line writer rather than as a stage.
    pub closed spec fn raw(&self) -> bool {
        self.raw
    }

    pub closed spec fn pattern(&self) -> Seq<u8> {
        self.pattern@
    }

    /// Every byte taken in so far.
    pub closed spec fn received(&self) -> Seq<u8> {
        self.received@
    }

    /// Every byte handed on so far.
    pub closed spec fn emitted(&self) -> Seq<u8> {
        self.emitted@
    }

    /// Whether the end of the input has been seen.
    pub closed spec fn finished(&self) -> bool {
        self.finished
    }

    /// The internal state agrees with what was received and emitted.
    pub closed spec fn wf(&self) -> bool {
        &&& self.raw ==> (self.rule == Builtin::Include || self.rule == Builtin::Exclude)
        &&& !self.finished ==> self.buf@ == trailing(self.received@)
        &&& !self.finished ==> self.lines as int == complete_lines(self.received@).len()
        &&& !self.finished ==> self.lines as int + self.buf@.len() <= self.received@.len()
        &&& self.received@.len() <= u64::MAX
        &&& (self.rule == Builtin::Begin && !self.raw) ==> self.begun == first_match(ended_text(self.received@), self.pattern@) is Some
        &&& !self.finished ==> self.emitted@ == filter_early(self.raw, self.rule, self.pattern@, self.received@)
        &&& self.finished ==> self.emitted@ == filter_output(self.raw, self.rule, self.pattern@, self.received@)
        &&& (!self.finished && self.rule != Builtin::NoMore) ==> self.emitted@.len() + self.buf@.len() <= self.received@.len()
        &&& self.emitted@.len() <= self.received@.len() + 21
    }

    /// A line writer that keeps (`keep` true) or drops the lines holding
    /// `pattern`, and passes the lines it keeps on byte for byte.
    pub fn new(pattern: String, keep: bool) -> (r: FilterWriter)
        ensures
            r.wf(),
            r.raw(),
            r.rule() == (if keep { Builtin::Include } else { Builtin::Exclude }),
            r.pattern() == pattern_of(seq![pattern]),
            r.received().len() == 0,
            r.emitted().len() == 0,
            !r.finished(),
    {
        let rule = if keep { Builtin::Include } else { Builtin::Exclude };
        Self::start(true, rule, bytes_of(pattern.as_str()))
    }

    /// A stage running `rule`, with the first of `args` as its pattern.
    pub fn for_stage(rule: Builtin, args: &Vec<String>) -> (r: FilterWriter)
        ensures
            r.wf(),
            !r.raw(),
            r.rule() == rule,
            r.pattern() == pattern_of(args@),
            r.received().len() == 0,
            r.emitted().len() == 0,
            !r.finished(),
    {
        let pattern = if args.len() > 0 { bytes_of(args[0].as_str()) } else { Vec::new() };
        Self::start(false, rule, pattern)
    }

    fn start(raw: bool, rule: Builtin, pattern: Vec<u8>) -> (r: FilterWriter)
        requires
            raw ==> (rule == Builtin::Include || rule == Builtin::Exclude),
        ensures
            r.wf(),
            r.raw() == raw,
            r.rule() == rule,
            r.pattern() == pattern@,
            r.received().len() == 0,
            r.emitted().len() == 0,
            !r.finished(),
    {
        let r = FilterWriter {
            raw,
            rule,
            pattern,
            buf: Vec::new(),
            begun: false,
            lines: 0,
            finished: false,
            received: Ghost(Seq::empty()),
            emitted: Ghost(Seq::empty()),
        };
        proof {
            lemma_segments_nonempty(Seq::<u8>::empty(), NEWLINE);
            assert(complete_lines(Seq::<u8>::empty()) =~= Seq::<Seq<u8>>::empty());
            assert(trailing(Seq::<u8>::empty()) =~= Seq::<u8>::empty());
            assert(ended_text(Seq::<u8>::empty()) =~= Seq::<Seq<u8>>::empty());
            assert(ended_raw(Seq::<u8>::empty()) =~= Seq::<Seq<u8>>::empty());
            reveal(Seq::filter);
            assert(Seq::<Seq<u8>>::empty().filter(matcher(pattern@, true)) =~= Seq::<Seq<u8>>::empty());
            assert(Seq::<Seq<u8>>::empty().filter(matcher(pattern@, false)) =~= Seq::<Seq<u8>>::empty());
        }
        r
    }

    /// What a line that has just ended adds to what a line writer passes.
    proof fn lemma_raw_line_ends(keep: bool, p: Seq<u8>, ls: Seq<Seq<u8>>, l: Seq<u8>)
        ensures
            concat(ls.push(l).filter(matcher(p, keep))) == concat(ls.filter(matcher(p, keep))) + (
            if has_pattern(l, p) == keep {
                l
            } else {
                Seq::empty()
            }),
    {
        reveal(Seq::filter);
        let m = matcher(p, keep);
        assert(ls.push(l).drop_last() =~= ls);
        let k = ls.filter(m);
        if m(l) {
            assert(ls.push(l).filter(m) == k.push(l));
            lemma_concat_push(k, l);
        } else {
            assert(ls.push(l).filter(m) == k);
            assert(concat(k) + Seq::empty() =~= concat(k));
        }
    }

    /// What a line that has just ended adds to the output.
    proof fn lemma_line_ends(rule: Builtin, p: Seq<u8>, ls: Seq<Seq<u8>>, l: Seq<u8>)
        ensures
            unlines(kept(rule, p, ls.push(l))) == unlines(kept(rule, p, ls)) + (
            if (rule == Builtin::Include && has_pattern(l, p))
                || (rule == Builtin::Exclude && !has_pattern(l, p))
                || (rule == Builtin::Begin && (first_match(ls, p) is Some || has_pattern(l, p)))
                || rule == Builtin::Count || rule == Builtin::NoMore {
                l.push(NEWLINE)
            } else {
                Seq::empty()
            }),
            first_match(ls.push(l), p) is Some == (first_match(ls, p) is Some || has_pattern(l, p)),
    {
        let ls2 = ls.push(l);
        assert(ls2.drop_last() =~= ls);
        reveal(Seq::filter);
        lemma_first_match_range(ls, p);
        match rule {
            Builtin::Include | Builtin::Exclude => {
                let m = matcher(p, rule == Builtin::Include);
                let k = ls.filter(m);
                if m(l) {
                    assert(ls2.filter(m) == k.push(l));
                    lemma_unlines_push(k, l);
                } else {
                    assert(ls2.filter(m) == k);
                    assert(unlines(k) + Seq::empty() =~= unlines(k));
                }
            },
            Builtin::Begin => {
                match first_match(ls, p) {
                    Some(i) => {
                        assert(ls2.skip(i) =~= ls.skip(i).push(l));
                        lemma_unlines_push(ls.skip(i), l);
                    },
                    None => {
                        if has_pattern(l, p) {
                            assert(ls2.skip(ls.len() as int) =~= seq![l]);
                            assert(seq![l].drop_last() =~= Seq::<Seq<u8>>::empty());
                            assert(Seq::<u8>::empty() + l.push(NEWLINE) =~= l.push(NEWLINE));
                        } else {
                            assert(unlines(Seq::<Seq<u8>>::empty()) + Seq::empty() =~= Seq::<u8>::empty());
                        }
                    },
                }
            },
            _ => {
                lemma_unlines_push(ls, l);
            },
        }
    }

    /// Takes one byte, appending what it releases to `out`.
    fn step(&mut self, b: u8, out: &mut Vec<u8>)
        requires
            old(self).wf(),
            !old(self).finished(),
            old(self).received().len() + 1 <= u64::MAX,
        ensures
            final(self).wf(),
            !final(self).finished(),
            final(self).raw() == old(self).raw(),
            final(self).rule() == old(self).rule(),
            final(self).pattern() == old(self).pattern(),
            final(self).received() == old(self).received().push(b),
            final(out)@.len() >= old(out)@.len(),
            final(out)@.subrange(0, old(out)@.len() as int) == old(out)@,
            final(self).emitted() == old(self).emitted() + final(out)@.subrange(
                old(out)@.len() as int,
                final(out)@.len() as int,
            ),
    {
        let ghost s = self.received@;
        let ghost out0 = out@;
        let ghost t = self.buf@;
        let ghost e0 = self.emitted@;
        proof {
            lemma_lines_push(s, b);
        }
        if b == NEWLINE {
            if self.raw {
                self.buf.push(NEWLINE);
                let keep = contains_bytes(self.buf.as_slice(), self.pattern.as_slice()) == (self.rule == Builtin::Include);
                proof {
                    Self::lemma_raw_line_ends(self.rule == Builtin::Include, self.pattern@, ended_raw(s), t.push(NEWLINE));
                }
                if keep {
                    out.append(&mut self.buf);
                } else {
                    self.buf.clear();
                }
                proof {
                    if keep {
                        assert(out@.subrange(out0.len() as int, out@.len() as int) =~= t.push(NEWLINE));
                    } else {
                        assert(out@.subrange(out0.len() as int, out@.len() as int) =~= Seq::<u8>::empty());
                        assert(e0 + Seq::<u8>::empty() =~= e0);
                    }
                }
            } else {
                if self.buf.len() > 0 && self.buf[self.buf.len() - 1] == CR {
                    self.buf.pop();
                }
                proof {
                    assert(self.buf@ =~= strip_cr(t));
                }
                let keep = match self.rule {
                    Builtin::Include => contains_bytes(self.buf.as_slice(), self.pattern.as_slice()),
                    Builtin::Exclude => !contains_bytes(self.buf.as_slice(), self.pattern.as_slice()),
                    Builtin::Begin => self.begun || contains_bytes(self.buf.as_slice(), self.pattern.as_slice()),
                    Builtin::Count => false,
                    Builtin::NoMore => false,
                };
                if self.rule == Builtin::Begin && keep {
                    self.begun = true;
                }
                proof {
                    let l = self.buf@;
                    Self::lemma_line_ends(self.rule, self.pattern@, ended_text(s), l);
                    if self.rule != Builtin::Begin {
                        Self::lemma_line_ends(Builtin::Begin, self.pattern@, ended_text(s), l);
                    }
                }
                let ghost l = self.buf@;
                if keep {
                    out.append(&mut self.buf);
                    out.push(NEWLINE);
                } else {
                    self.buf.clear();
                }
                if self.rule == Builtin::NoMore {
                    out.push(NEWLINE);
                }
                proof {
                    if self.rule == Builtin::NoMore {
                        assert(out@.subrange(out0.len() as int, out@.len() as int) =~= seq![b]);
                    } else if keep {
                        assert(out@.subrange(out0.len() as int, out@.len() as int) =~= l.push(NEWLINE));
                    } else {
                        assert(out@.subrange(out0.len() as int, out@.len() as int) =~= Seq::<u8>::empty());
                        assert(e0 + Seq::<u8>::empty() =~= e0);
                    }
                }
            }
            self.lines = self.lines + 1;
            self.received = Ghost(s.push(b));
            self.emitted = Ghost(e0 + out@.subrange(out0.len() as int, out@.len() as int));
            proof {
                assert(self.buf@ =~= Seq::<u8>::empty());
                assert(out@.subrange(0, out0.len() as int) =~= out0);
                if self.rule == Builtin::NoMore {
                    assert(self.emitted@ =~= s.push(b));
                }
            }
        } else {
            self.buf.push(b);
            if self.rule == Builtin::NoMore {
                out.push(b);
            }
            self.received = Ghost(s.push(b));
            self.emitted = Ghost(e0 + out@.subrange(out0.len() as int, out@.len() as int));
            proof {
                assert(out@.subrange(0, out0.len() as int) =~= out0);
                if self.rule == Builtin::NoMore {
                    assert(out@.subrange(out0.len() as int, out@.len() as int) =~= seq![b]);
                    assert(self.emitted@ =~= s.push(b));
                } else {
                    assert(out@.subrange(out0.len() as int, out@.len() as int) =~= Seq::<u8>::empty());
                    assert(self.emitted@ =~= e0);
                }
            }
        }
    }

    /// What the well-formedness of a filter tells about its output.
    pub proof fn lemma_output(&self)
        requires
            self.wf(),
        ensures
            !self.finished() ==> self.emitted() == filter_early(self.raw(), self.rule(), self.pattern(), self.received()),
            self.finished() ==> self.emitted() == filter_output(self.raw(), self.rule(), self.pattern(), self.received()),
            !self.finished() ==> self.emitted().len() <= self.received().len(),
            self.emitted().len() <= self.received().len() + 21,
            self.received().len() <= u64::MAX,
    {
    }

    /// Takes the next piece of input and returns the bytes it releases:
    /// each line that the piece completes, if the filter passes it on.
    pub fn feed(&mut self, data: &[u8]) -> (out: Vec<u8>)
        requires
            old(self).wf(),
            !old(self).finished(),
            old(self).received().len() + data@.len() <= u64::MAX,
        ensures
            final(self).wf(),
            !final(self).finished(),
            final(self).raw() == old(self).raw(),
            final(self).rule() == old(self).rule(),
            final(self).pattern() == old(self).pattern(),
            final(self).received() == old(self).received() + data@,
            final(self).emitted() == old(self).emitted() + out@,
            final(self).emitted() == filter_early(final(self).raw(), final(self).rule(), final(self).pattern(), final(self).received()),
    {
        let mut out: Vec<u8> = Vec::new();
        let ghost r0 = self.received@;
        let ghost e0 = self.emitted@;
        let mut i: usize = 0;
        while i < data.len()
            invariant
                self.wf(),
                !self.finished,
                self.raw == old(self).raw(),
                self.rule == old(self).rule(),
                self.pattern@ == old(self).pattern(),
                0 <= i <= data@.len(),
                r0 == old(self).received(),
                e0 == old(self).emitted(),
                r0.len() + data@.len() <= u64::MAX,
                self.received@ == r0 + data@.subrange(0, i as int),
                self.emitted@ == e0 + out@,
            decreases data.len() - i,
        {
            let ghost out_before = out@;
            self.step(data[i], &mut out);
            proof {
                assert(data@.subrange(0, i + 1) =~= data@.subrange(0, i as int).push(data@[i as int]));
                assert(out@ =~= out_before + out@.subrange(out_before.len() as int, out@.len() as int));
                assert(self.emitted@ =~= e0 + out@);
            }
            i = i + 1;
        }
        proof {
            assert(data@.subrange(0, data@.len() as int) =~= data@);
        }
        out
    }

    /// Ends the input and returns what remains to be written: the last
    /// line if it had no line break, and for a count the number of lines.
    pub fn finish(&mut self) -> (out: Vec<u8>)
        requires
            old(self).wf(),
            !old(self).finished(),
        ensures
            final(self).wf(),
            final(self).finished(),
            final(self).raw() == old(self).raw(),
            final(self).rule() == old(self).rule(),
            final(self).pattern() == old(self).pattern(),
            final(self).received() == old(self).received(),
            final(self).emitted() == old(self).emitted() + out@,
            final(self).emitted() == filter_output(final(self).raw(), final(self).rule(), final(self).pattern(), final(self).received()),
    {
        let ghost s = self.received@;
        let ghost t = self.buf@;
        let ghost e0 = self.emitted@;
        let mut out: Vec<u8> = Vec::new();
        proof {
            lemma_segments_nonempty(s, NEWLINE);
            Self::lemma_line_ends(self.rule, self.pattern@, ended_text(s), t);
            Self::lemma_raw_line_ends(self.rule == Builtin::Include, self.pattern@, ended_raw(s), t);
            lemma_first_match_range(ended_text(s), self.pattern@);
        }
        if self.raw {
            if self.buf.len() > 0 {
                let keep = contains_bytes(self.buf.as_slice(), self.pattern.as_slice()) == (self.rule == Builtin::Include);
                if keep {
                    out.append(&mut self.buf);
                }
                proof {
                    if keep {
                        assert(out@ =~= t);
                    } else {
                        assert(out@ =~= Seq::<u8>::empty());
                    }
                }
            }
        } else {
            match self.rule {
                Builtin::Count => {
                    let n: u64 = if self.buf.len() > 0 { self.lines + 1 } else { self.lines };
                    out = decimal_bytes(n);
                    out.push(NEWLINE);
                    proof {
                        lemma_decimal_u64(n as nat);
                        assert(lines_of(s).len() == n);
                    }
                },
                Builtin::NoMore => {},
                _ => {
                    if self.buf.len() > 0 {
                        let keep = match self.rule {
                            Builtin::Include => contains_bytes(self.buf.as_slice(), self.pattern.as_slice()),
                            Builtin::Exclude => !contains_bytes(self.buf.as_slice(), self.pattern.as_slice()),
                            _ => self.begun || contains_bytes(self.buf.as_slice(), self.pattern.as_slice()),
                        };
                        if keep {
                            out.append(&mut self.buf);
                            out.push(NEWLINE);
                        }
                        proof {
                            if keep {
                                assert(out@ =~= t.push(NEWLINE));
                            } else {
                                assert(out@ =~= Seq::<u8>::empty());
                            }
                        }
                    }
                },
            }
        }
        self.finished = true;
        self.emitted = Ghost(e0 + out@);
        proof {
            if t.len() == 0 {
                assert(out@ =~= Seq::<u8>::empty() || self.rule == Builtin::Count);
                if !(self.rule == Builtin::Count && !self.raw) {
                    assert(out@ =~= Seq::<u8>::empty());
                    assert(self.emitted@ =~= e0);
                }
                assert(text_lines(s) == ended_text(s));
                assert(raw_lines(s) == ended_raw(s));
            } else {
                assert(text_lines(s) == ended_text(s).push(t));
                assert(raw_lines(s) == ended_raw(s).push(t));
            }
        }
        out
    }
}

} // verus!
