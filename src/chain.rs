//! Builtin filters joined in a row inside one process: each stage's output
//! is the next one's input, and the last one's output goes to the terminal.
use vstd::prelude::*;
use crate::filter::{early_output, pattern_of, stage_output, Builtin};
use crate::output::FilterWriter;

verus! {

/// What a row of filters writes for the whole `input`: the first filter is
/// applied to the input, each next one to what the one before wrote.
pub open spec fn pipeline_output(rules: Seq<(Builtin, Seq<u8>)>, input: Seq<u8>) -> Seq<u8>
    decreases rules.len(),
{
    if rules.len() == 0 {
        input
    } else {
        stage_output(
            rules.last().0,
            rules.last().1,
            pipeline_output(rules.drop_last(), input),
        )
    }
}

/// What a row of filters has written once `input` has arrived and before
/// the input ends: each filter's early output is the next one's input.
pub open spec fn pipeline_early(rules: Seq<(Builtin, Seq<u8>)>, input: Seq<u8>) -> Seq<u8>
    decreases rules.len(),
{
    if rules.len() == 0 {
        input
    } else {
        early_output(
            rules.last().0,
            rules.last().1,
            pipeline_early(rules.drop_last(), input),
        )
    }
}

/// Filters in a row, fed from one end.
pub struct FilterChain {
    stages: Vec<FilterWriter>,
    written: u64,
    finished: bool,
    input: Ghost<Seq<u8>>,
    output: Ghost<Seq<u8>>,
}

impl FilterChain {
    /// The rule and pattern of each stage, first stage first.
    pub closed spec fn rules(&self) -> Seq<(Builtin, Seq<u8>)> {
        self.stages@.map_values(|s: FilterWriter| (s.rule(), s.pattern()))
    }

    /// Every byte written into the chain.
    pub closed spec fn input(&self) -> Seq<u8> {
        self.input@
    }

    /// Every byte that has left the last stage.
    pub closed spec fn output(&self) -> Seq<u8> {
        self.output@
    }

    pub closed spec fn finished(&self) -> bool {
        self.finished
    }

    spec fn linked(&self) -> bool {
        &&& forall|k: int| 0 <= k < self.stages@.len() ==> (#[trigger] self.stages@[k]).wf()
        &&& forall|k: int| 0 <= k < self.stages@.len() ==> !(#[trigger] self.stages@[k]).raw()
        &&& forall|k: int| 0 <= k < self.stages@.len() ==> (#[trigger] self.stages@[k]).finished() == self.finished
        &&& forall|k: int| 0 < k < self.stages@.len() ==> (#[trigger] self.stages@[k]).received() == self.stages@[k - 1].emitted()
        &&& self.stages@.len() > 0 ==> self.stages@[0].received() == self.input@
        &&& self.output@ == (if self.stages@.len() == 0 {
            self.input@
        } else {
            self.stages@.last().emitted()
        })
    }

    pub closed spec fn wf(&self) -> bool {
        &&& self.linked()
        &&& self.written as int == (if self.stages@.len() > 0 { self.input@.len() } else { 0 })
        &&& self.stages@.len() > 0 ==> self.input@.len() + 21 * self.stages@.len() <= u64::MAX
        &&& forall|k: int| 0 <= k < self.stages@.len() ==> (#[trigger] self.stages@[k]).received().len() <= self.input@.len() + 21 * k
        &&& !self.finished ==> forall|k: int| 0 <= k < self.stages@.len() ==> (#[trigger] self.stages@[k]).received().len() <= self.input@.len()
        &&& self.finished ==> self.output@ == pipeline_output(self.rules(), self.input@)
        &&& !self.finished ==> forall|k: int| 0 <= k < self.stages@.len() ==>
            (#[trigger] self.stages@[k]).emitted() == pipeline_early(self.rules().take(k + 1), self.input@)
        &&& !self.finished ==> self.output@ == pipeline_early(self.rules(), self.input@)
    }

    /// A chain with no stage: what is written comes out as it is.
    pub fn new() -> (r: FilterChain)
        ensures
            r.wf(),
            r.rules().len() == 0,
            r.input().len() == 0,
            r.output().len() == 0,
            !r.finished(),
    {
        FilterChain {
            stages: Vec::new(),
            written: 0,
            finished: false,
            input: Ghost(Seq::empty()),
            output: Ghost(Seq::empty()),
        }
    }

    /// Adds `rule`, with the first of `args` as its pattern, after the
    /// last stage.
    pub fn push_stage(&mut self, rule: Builtin, args: &Vec<String>)
        requires
            old(self).wf(),
            !old(self).finished(),
            old(self).input().len() == 0,
            21 * (old(self).rules().len() + 1) <= u64::MAX,
        ensures
            final(self).wf(),
            !final(self).finished(),
            final(self).rules() == old(self).rules().push((rule, pattern_of(args@))),
            final(self).input().len() == 0,
            final(self).output().len() == 0,
    {
        let st = FilterWriter::for_stage(rule, args);
        let ghost before = self.stages@;
        proof {
            st.lemma_output();
            assert(early_output(rule, st.pattern(), Seq::empty()).len() == 0);
        }
        self.stages.push(st);
        self.output = Ghost(Seq::empty());
        proof {
            let n = before.len();
            assert(self.stages@[n as int] == st);
            if n > 0 {
                before[n - 1].lemma_output();
                assert(before[n - 1].emitted().len() <= before[n - 1].received().len());
                assert(st.received() =~= before[n - 1].emitted());
            } else {
                assert(st.received() =~= self.input@);
            }
            assert(self.stages@[0].received() == self.input@);
            assert(self.stages@.last().emitted() =~= Seq::<u8>::empty());
            assert forall|k: int| 0 <= k < self.stages@.len() implies (#[trigger] self.stages@[k]).received().len() <= self.input@.len() by {
                if k < n {
                    assert(self.stages@[k] == before[k]);
                }
            }
            assert(self.rules() =~= old(self).rules().push((rule, pattern_of(args@))));
            let rs = self.rules();
            assert forall|k: int| 0 <= k < self.stages@.len() implies
                (#[trigger] self.stages@[k]).emitted() == pipeline_early(rs.take(k + 1), self.input@) by {
                if k < n {
                    assert(self.stages@[k] == before[k]);
                    assert(rs.take(k + 1) =~= old(self).rules().take(k + 1));
                } else {
                    assert(rs.take(k + 1).drop_last() =~= rs.take(k));
                    assert(rs.take(k) =~= old(self).rules());
                    assert(rs.take(k + 1).last() == (st.rule(), st.pattern()));
                    if n > 0 {
                        assert(old(self).rules().take(n as int) =~= old(self).rules());
                        assert(before[n - 1].emitted() == pipeline_early(old(self).rules().take(n as int), self.input@));
                    } else {
                        assert(old(self).rules() =~= Seq::<(Builtin, Seq<u8>)>::empty());
                    }
                }
            }
            assert(rs.take(rs.len() as int) =~= rs);
        }
    }

    /// Whether `n` more bytes can be written without a count overflowing;
    /// a chain without stages takes any number.
    pub fn has_room(&self, n: usize) -> (r: bool)
        requires
            self.wf(),
        ensures
            r == (self.rules().len() == 0 || self.input().len() + n + 21 * self.rules().len() <= u64::MAX),
    {
        if self.stages.len() == 0 {
            return true;
        }
        let total: u128 = self.written as u128 + n as u128 + 21 * (self.stages.len() as u128);
        total <= u64::MAX as u128
    }

    /// Writes `data` into the first stage and returns what reaches the end
    /// of the chain because of it.
    pub fn write(&mut self, data: &[u8]) -> (out: Vec<u8>)
        requires
            old(self).wf(),
            !old(self).finished(),
            old(self).rules().len() > 0 ==> old(self).input().len() + data@.len() + 21 * old(self).rules().len() <= u64::MAX,
        ensures
            final(self).wf(),
            !final(self).finished(),
            final(self).rules() == old(self).rules(),
            final(self).input() == old(self).input() + data@,
            final(self).output() == old(self).output() + out@,
            final(self).output() == pipeline_early(final(self).rules(), final(self).input()),
            old(self).rules().len() == 0 ==> out@ == data@,
    {
        let ghost rs = old(self).rules();
        if self.stages.len() == 0 {
            self.input = Ghost(self.input@ + data@);
            self.output = Ghost(self.output@ + data@);
            proof {
                assert(rs =~= Seq::<(Builtin, Seq<u8>)>::empty());
                assert(self.rules() =~= rs);
            }
            return vstd::slice::slice_to_vec(data);
        }
        let ghost old_stages = self.stages@;
        let ghost old_input = self.input@;
        let ghost new_input = self.input@ + data@;
        let mut piece: Vec<u8> = vstd::slice::slice_to_vec(data);
        let n = self.stages.len();
        let mut k: usize = 0;
        while k < n
            invariant
                n == self.stages@.len(),
                n == old_stages.len(),
                0 <= k <= n,
                self.written == old(self).written,
                self.input == old(self).input,
                self.output == old(self).output,
                self.finished == old(self).finished,
                old_stages == old(self).stages@,
                old(self).written as int == old_input.len(),
                n > 0 ==> old_stages[n - 1].emitted() == old(self).output(),
                n == 0 ==> old(self).output() == old_input,
                new_input == old_input + data@,
                new_input.len() + 21 * n <= u64::MAX,
                forall|j: int| 0 <= j < n ==> (#[trigger] self.stages@[j]).wf(),
                forall|j: int| 0 <= j < n ==> !(#[trigger] self.stages@[j]).raw(),
                forall|j: int| 0 <= j < n ==> !(#[trigger] self.stages@[j]).finished(),
                forall|j: int| 0 <= j < n ==> (#[trigger] self.stages@[j]).rule() == old_stages[j].rule(),
                forall|j: int| 0 <= j < n ==> (#[trigger] self.stages@[j]).pattern() == old_stages[j].pattern(),
                forall|j: int| k <= j < n ==> (#[trigger] self.stages@[j]) == old_stages[j],
                forall|j: int| 0 < j < k ==> (#[trigger] self.stages@[j]).received() == self.stages@[j - 1].emitted(),
                k > 0 ==> self.stages@[0].received() == new_input,
                forall|j: int| 0 <= j < k ==> (#[trigger] self.stages@[j]).received().len() <= new_input.len(),
                k == 0 ==> piece@ == data@,
                k > 0 ==> self.stages@[k - 1].emitted() == old_stages[k - 1].emitted() + piece@,
                forall|j: int| 0 < j < n ==> (#[trigger] old_stages[j]).received() == old_stages[j - 1].emitted(),
                n > 0 ==> old_stages[0].received() == old_input,
                forall|j: int| 0 <= j < n ==> (#[trigger] old_stages[j]).received().len() <= old_input.len(),
                rs == old_stages.map_values(|s: FilterWriter| (s.rule(), s.pattern())),
                forall|j: int| 0 <= j < k ==> (#[trigger] self.stages@[j]).emitted() == pipeline_early(rs.take(j + 1), new_input),
            decreases n - k,
        {
            proof {
                if k > 0 {
                    self.stages@[k - 1].lemma_output();
                    assert(old_stages[k as int].received() == old_stages[k - 1].emitted());
                }
            }
            let ghost before = self.stages@;
            let next = self.stages[k].feed(piece.as_slice());
            proof {
                assert forall|j: int| 0 <= j < n && j != k implies #[trigger] self.stages@[j] == before[j] by {}
                let st = self.stages@[k as int];
                assert(rs.take(0) =~= Seq::<(Builtin, Seq<u8>)>::empty());
                if k == 0 {
                    assert(st.received() =~= new_input);
                } else {
                    assert(st.received() =~= self.stages@[k - 1].emitted());
                }
                assert(st.received() == pipeline_early(rs.take(k as int), new_input));
                assert(rs.take(k + 1).drop_last() =~= rs.take(k as int));
                assert(rs.take(k + 1).last() == (st.rule(), st.pattern()));
            }
            piece = next;
            k = k + 1;
        }
        self.written = self.written + data.len() as u64;
        self.input = Ghost(new_input);
        self.output = Ghost(self.output@ + piece@);
        proof {
            if n == 0 {
                assert(self.output@ =~= new_input);
                assert(piece@ == data@);
            } else {
                assert(old_stages[n - 1].emitted() == old(self).output());
            }
            assert forall|j: int| 0 <= j < n implies (#[trigger] self.stages@[j]).received().len() <= self.input@.len() + 21 * j by {}
            assert(self.rules() =~= old(self).rules());
            assert(rs.take(n as int) =~= rs);
        }
        piece
    }

    /// Ends the input of the first stage, lets the end travel down the
    /// chain stage by stage, and returns what the stages wrote last.
    #[verifier::rlimit(40)]
    pub fn finish(&mut self) -> (out: Vec<u8>)
        requires
            old(self).wf(),
            !old(self).finished(),
        ensures
            final(self).wf(),
            final(self).finished(),
            final(self).rules() == old(self).rules(),
            final(self).input() == old(self).input(),
            final(self).output() == old(self).output() + out@,
            final(self).output() == pipeline_output(final(self).rules(), final(self).input()),
            old(self).rules().len() == 0 ==> out@.len() == 0,
    {
        let ghost old_stages = self.stages@;
        let ghost input = self.input@;
        let ghost rs = self.rules();
        let mut piece: Vec<u8> = Vec::new();
        let n = self.stages.len();
        proof {
            if n == 0 {
                assert(old(self).output() == input);
            }
        }
        let mut k: usize = 0;
        while k < n
            invariant
                n == self.stages@.len(),
                n == old_stages.len(),
                0 <= k <= n,
                self.written == old(self).written,
                self.input == old(self).input,
                self.output == old(self).output,
                self.finished == old(self).finished,
                old_stages == old(self).stages@,
                n > 0 ==> old_stages[n - 1].emitted() == old(self).output(),
                n == 0 ==> old(self).output() == input,
                input == old(self).input(),
                rs == old_stages.map_values(|s: FilterWriter| (s.rule(), s.pattern())),
                n > 0 ==> input.len() + 21 * n <= u64::MAX,
                forall|j: int| 0 <= j < n ==> (#[trigger] self.stages@[j]).wf(),
                forall|j: int| 0 <= j < n ==> !(#[trigger] self.stages@[j]).raw(),
                forall|j: int| 0 <= j < k ==> (#[trigger] self.stages@[j]).finished(),
                forall|j: int| 0 <= j < n ==> (#[trigger] self.stages@[j]).rule() == old_stages[j].rule(),
                forall|j: int| 0 <= j < n ==> (#[trigger] self.stages@[j]).pattern() == old_stages[j].pattern(),
                forall|j: int| k <= j < n ==> (#[trigger] self.stages@[j]) == old_stages[j],
                forall|j: int| 0 < j < k ==> (#[trigger] self.stages@[j]).received() == self.stages@[j - 1].emitted(),
                k > 0 ==> self.stages@[0].received() == input,
                forall|j: int| 0 <= j < k ==> (#[trigger] self.stages@[j]).received().len() <= input.len() + 21 * j,
                forall|j: int| 0 <= j < k ==> (#[trigger] self.stages@[j]).emitted() == pipeline_output(rs.take(j + 1), input),
                k == 0 ==> piece@.len() == 0,
                k > 0 ==> self.stages@[k - 1].emitted() == old_stages[k - 1].emitted() + piece@,
                forall|j: int| 0 < j < n ==> (#[trigger] old_stages[j]).received() == old_stages[j - 1].emitted(),
                n > 0 ==> old_stages[0].received() == input,
                forall|j: int| 0 <= j < n ==> !(#[trigger] old_stages[j]).finished(),
                forall|j: int| 0 <= j < n ==> (#[trigger] old_stages[j]).received().len() <= input.len(),
            decreases n - k,
        {
            proof {
                if k > 0 {
                    self.stages@[k - 1].lemma_output();
                    assert(old_stages[k as int].received() == old_stages[k - 1].emitted());
                    assert(self.stages@[k - 1].received().len() <= input.len() + 21 * (k - 1));
                } else {
                    assert(old_stages[0].received() + piece@ =~= input);
                }
            }
            let ghost before = self.stages@;
            let mut next = self.stages[k].feed(piece.as_slice());
            let ghost mid = self.stages@;
            let mut last = self.stages[k].finish();
            next.append(&mut last);
            proof {
                assert forall|j: int| 0 <= j < n && j != k implies #[trigger] self.stages@[j] == before[j] by {
                    assert(mid[j] == before[j]);
                }
                let st = self.stages@[k as int];
                assert(st.emitted() =~= old_stages[k as int].emitted() + next@);
                let prev = if k == 0 { input } else { pipeline_output(rs.take(k as int), input) };
                assert(rs.take(0) =~= Seq::<(Builtin, Seq<u8>)>::empty());
                if k == 0 {
                    assert(st.received() =~= input);
                } else {
                    assert(st.received() =~= self.stages@[k - 1].emitted());
                }
                assert(st.received() == pipeline_output(rs.take(k as int), input));
                assert(rs.take(k + 1).drop_last() =~= rs.take(k as int));
                assert(rs.take(k + 1).last() == (st.rule(), st.pattern()));
                st.lemma_output();
            }
            piece = next;
            k = k + 1;
        }
        self.finished = true;
        self.output = Ghost(self.output@ + piece@);
        proof {
            assert(rs.take(n as int) =~= rs);
            if n == 0 {
                assert(self.output@ =~= input);
                assert(rs =~= Seq::<(Builtin, Seq<u8>)>::empty());
            } else {
                assert(old_stages[n - 1].emitted() == old(self).output());
                assert(self.output@ == self.stages@[n - 1].emitted());
            }
            assert(self.rules() =~= old(self).rules());
        }
        piece
    }
}

} // verus!
