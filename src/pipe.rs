//! The catalog of pipe stages, and the parsing of the stages that follow a
//! command.
use vstd::prelude::*;
use crate::filter::Builtin;
pub use crate::text::split_on_pipes;
use crate::text::{chars_of, pipe_parts, split_words, views, words};

verus! {

/// How a stage takes its arguments.
#[derive(Clone, Copy, Debug, PartialEq, Eq, Structural)]
pub enum ArgShape {
    /// Exactly one word for each declared argument.
    Exact,
    /// At least one word for each declared argument; all the words are
    /// handed on.
    Remaining,
}

/// What a stage runs.
pub enum PipeAction {
    /// An outside program, with fixed arguments before the user's.
    External { binary: String, fixed_args: Vec<String> },
    /// A filter of this library.
    Builtin(Builtin),
}

/// One stage of the catalog.
pub struct PipeCommand {
    pub name: String,
    pub help: String,
    /// The names of the arguments, for help text.
    pub args: Vec<String>,
    pub shape: ArgShape,
    pub action: PipeAction,
}

/// A stage that the user asked for: which entry of the catalog, and with
/// which words.
pub struct ParsedPipe {
    pub command_idx: usize,
    pub args: Vec<String>,
}

/// The stages that can follow a command.
pub struct PipeRegistry {
    commands: Vec<PipeCommand>,
}

/// Why the stages of a command line were refused.
#[derive(Debug)]
pub enum PipeError {
    /// No stage name starts with the word.
    NotFound(String),
    /// Several stage names start with the word and none is equal to it:
    /// the word, and those names.
    Ambiguous(String, Vec<String>),
    WrongArgCount { command: String, expected: usize, got: usize },
    /// The command does not take stages.
    NotAllowed,
}

/// `p` is the start of `s`.
pub open spec fn starts_with(s: Seq<char>, p: Seq<char>) -> bool {
    p.len() <= s.len() && s.subrange(0, p.len() as int) == p
}

/// The names in the catalog.
pub open spec fn names_of(cmds: Seq<PipeCommand>) -> Seq<Seq<char>> {
    cmds.map_values(|c: PipeCommand| c.name@)
}

/// The indices, in order, of the commands whose name starts with `name`.
pub open spec fn matching(cmds: Seq<PipeCommand>, name: Seq<char>) -> Seq<int>
    decreases cmds.len(),
{
    if cmds.len() == 0 {
        Seq::empty()
    } else if starts_with(cmds.last().name@, name) {
        matching(cmds.drop_last(), name).push(cmds.len() - 1)
    } else {
        matching(cmds.drop_last(), name)
    }
}

/// Some command is named `name` exactly.
pub open spec fn has_exact(cmds: Seq<PipeCommand>, name: Seq<char>) -> bool {
    exists|i: int| 0 <= i < cmds.len() && #[trigger] cmds[i].name@ == name
}

/// The command that `name` stands for: the one with exactly that name, or
/// else the only one whose name starts with it.
pub open spec fn resolves_to(cmds: Seq<PipeCommand>, name: Seq<char>, i: int) -> bool {
    0 <= i < cmds.len() && if has_exact(cmds, name) {
        cmds[i].name@ == name
    } else {
        matching(cmds, name) == seq![i]
    }
}

/// `r` is what looking `name` up in `cmds` gives.
pub open spec fn found(cmds: Seq<PipeCommand>, name: Seq<char>, r: Result<usize, PipeError>) -> bool {
    match r {
        Ok(i) => resolves_to(cmds, name, i as int),
        Err(PipeError::NotFound(n)) => n@ == name && matching(cmds, name).len() == 0,
        Err(PipeError::Ambiguous(n, names)) => {
            &&& n@ == name
            &&& !has_exact(cmds, name)
            &&& matching(cmds, name).len() >= 2
            &&& views(names@) == matching(cmds, name).map_values(|i: int| cmds[i].name@)
        },
        Err(_) => false,
    }
}

/// The number of words is one that the command takes.
pub open spec fn arity_fits(c: PipeCommand, got: nat) -> bool {
    match c.shape {
        ArgShape::Exact => got == c.args.len(),
        ArgShape::Remaining => got >= c.args.len(),
    }
}

/// The stage name in the text of a stage: its first word.
pub open spec fn stage_name(seg: Seq<char>) -> Seq<char> {
    if words(seg).len() > 0 {
        words(seg)[0]
    } else {
        Seq::empty()
    }
}

/// The arguments in the text of a stage: the words after the first.
pub open spec fn stage_args(seg: Seq<char>) -> Seq<Seq<char>> {
    if words(seg).len() > 0 {
        words(seg).skip(1)
    } else {
        Seq::empty()
    }
}

/// `r` is what parsing the stage text `seg` against `cmds` gives.
pub open spec fn parsed(cmds: Seq<PipeCommand>, seg: Seq<char>, r: Result<ParsedPipe, PipeError>) -> bool {
    let name = stage_name(seg);
    let args = stage_args(seg);
    match r {
        Ok(p) => {
            &&& resolves_to(cmds, name, p.command_idx as int)
            &&& arity_fits(cmds[p.command_idx as int], args.len())
            &&& views(p.args@) == args
        },
        Err(PipeError::WrongArgCount { command, expected, got }) => {
            exists|i: int|
                #![trigger cmds[i]]
                {
                    &&& resolves_to(cmds, name, i)
                    &&& !arity_fits(cmds[i], args.len())
                    &&& command@ == cmds[i].name@
                    &&& expected == cmds[i].args.len()
                    &&& got == args.len()
                }
        },
        Err(e) => found(cmds, name, Err(e)),
    }
}

/// `r` is what parsing each of `segs` in turn gives: every stage, or the
/// error of the first one that is refused.
pub open spec fn parsed_all(
    cmds: Seq<PipeCommand>,
    segs: Seq<Seq<char>>,
    r: Result<Vec<ParsedPipe>, PipeError>,
) -> bool {
    match r {
        Ok(v) => v@.len() == segs.len() && forall|i: int|
            0 <= i < segs.len() ==> parsed(cmds, #[trigger] segs[i], Ok(v@[i])),
        Err(e) => exists|k: int|
            #![trigger segs[k]]
            0 <= k < segs.len() && parsed(cmds, segs[k], Err(e)) && all_parse(cmds, segs.take(k)),
    }
}

/// The stage text `seg` parses.
pub open spec fn parses(cmds: Seq<PipeCommand>, seg: Seq<char>) -> bool {
    exists|p: ParsedPipe| #[trigger] parsed(cmds, seg, Ok(p))
}

/// Each of `segs` parses.
pub open spec fn all_parse(cmds: Seq<PipeCommand>, segs: Seq<Seq<char>>) -> bool {
    forall|j: int| 0 <= j < segs.len() ==> #[trigger] parses(cmds, segs[j])
}

fn owned(s: &str) -> (r: String)
    ensures
        r@ == s@,
{
    s.to_owned()
}

fn owned_all(v: &[&str]) -> (r: Vec<String>)
    ensures
        views(r@) == v@.map_values(|s: &str| s@),
{
    let mut out: Vec<String> = Vec::new();
    let mut i: usize = 0;
    while i < v.len()
        invariant
            i <= v@.len(),
            views(out@) == v@.take(i as int).map_values(|s: &str| s@),
        decreases v.len() - i,
    {
        let w = owned(v[i]);
        proof {
            assert(views(out@.push(w)) =~= views(out@).push(w@));
            assert(v@.take(i + 1).map_values(|s: &str| s@) =~= v@.take(i as int).map_values(|s: &str| s@).push(v@[i as int]@));
        }
        out.push(w);
        i = i + 1;
    }
    proof {
        assert(v@.take(v@.len() as int) =~= v@);
    }
    out
}

/// Whether `p` is the start of `s`.
pub(crate) fn starts_with_chars(s: &Vec<char>, p: &Vec<char>) -> (r: bool)
    ensures
        r == starts_with(s@, p@),
{
    if p.len() > s.len() {
        return false;
    }
    let mut i: usize = 0;
    while i < p.len()
        invariant
            p@.len() <= s@.len(),
            i <= p@.len(),
            forall|j: int| 0 <= j < i ==> s@[j] == p@[j],
        decreases p.len() - i,
    {
        if s[i] != p[i] {
            proof {
                assert(s@.subrange(0, p@.len() as int)[i as int] != p@[i as int]);
            }
            return false;
        }
        i = i + 1;
    }
    proof {
        assert(s@.subrange(0, p@.len() as int) =~= p@);
    }
    true
}

impl View for PipeRegistry {
    type V = Seq<PipeCommand>;

    closed spec fn view(&self) -> Seq<PipeCommand> {
        self.commands@
    }
}

impl PipeRegistry {
    /// No two stages share a name.
    pub open spec fn wf(&self) -> bool {
        forall|i: int, j: int|
            0 <= i < j < self@.len() ==> (#[trigger] self@[i]).name@ != (#[trigger] self@[j]).name@
    }

    /// An empty catalog.
    pub fn new() -> (r: PipeRegistry)
        ensures
            r.wf(),
            r@.len() == 0,
    {
        PipeRegistry { commands: Vec::new() }
    }

    fn add(self, c: PipeCommand) -> (r: PipeRegistry)
        requires
            self.wf(),
            !names_of(self@).contains(c.name@),
        ensures
            r.wf(),
            r@ == self@.push(c),
    {
        proof {
            assert forall|i: int| 0 <= i < self@.len() implies self@[i].name@ != c.name@ by {
                assert(names_of(self@)[i] == self@[i].name@);
            }
        }
        let mut commands = self.commands;
        commands.push(c);
        PipeRegistry { commands }
    }

    /// Adds a builtin filter `func` under `name`, taking one word for each
    /// of `args`.
    pub fn builtin(self, name: &str, help: &str, args: &[&str], func: Builtin) -> (r: PipeRegistry)
        requires
            self.wf(),
            !names_of(self@).contains(name@),
        ensures
            r.wf(),
            r@.drop_last() == self@,
            r@.len() == self@.len() + 1,
            r@.last().name@ == name@,
            r@.last().help@ == help@,
            views(r@.last().args@) == args@.map_values(|s: &str| s@),
            r@.last().shape == ArgShape::Exact,
            r@.last().action == PipeAction::Builtin(func),
    {
        let c = PipeCommand {
            name: owned(name),
            help: owned(help),
            args: owned_all(args),
            shape: ArgShape::Exact,
            action: PipeAction::Builtin(func),
        };
        let r = self.add(c);
        proof {
            assert(r@.drop_last() =~= self@);
        }
        r
    }

    /// Adds the outside program `binary` under `name`; it gets
    /// `fixed_args` and then every word that follows the stage name, at
    /// least one for each of `args`.
    pub fn external(
        self,
        name: &str,
        help: &str,
        args: &[&str],
        binary: &str,
        fixed_args: &[&str],
    ) -> (r: PipeRegistry)
        requires
            self.wf(),
            !names_of(self@).contains(name@),
        ensures
            r.wf(),
            r@.drop_last() == self@,
            r@.len() == self@.len() + 1,
            r@.last().name@ == name@,
            r@.last().help@ == help@,
            views(r@.last().args@) == args@.map_values(|s: &str| s@),
            r@.last().shape == ArgShape::Remaining,
            r@.last().action matches PipeAction::External { binary: b, fixed_args: f }
                && b@ == binary@ && views(f@) == fixed_args@.map_values(|s: &str| s@),
    {
        let c = PipeCommand {
            name: owned(name),
            help: owned(help),
            args: owned_all(args),
            shape: ArgShape::Remaining,
            action: PipeAction::External { binary: owned(binary), fixed_args: owned_all(fixed_args) },
        };
        let r = self.add(c);
        proof {
            assert(r@.drop_last() =~= self@);
        }
        r
    }

    /// Ends the building of a catalog.
    pub fn build(self) -> (r: PipeRegistry)
        ensures
            r@ == self@,
    {
        self
    }

    /// The stages, in the order they were added.
    pub fn commands(&self) -> (r: &[PipeCommand])
        ensures
            r@ == self@,
    {
        self.commands.as_slice()
    }

    /// The index of the stage named `name`, if any.
    pub fn position(&self, name: &str) -> (r: Option<usize>)
        ensures
            r matches Some(i) ==> i < self@.len() && self@[i as int].name@ == name@,
            r is None ==> !names_of(self@).contains(name@),
    {
        let key = chars_of(name);
        let mut i: usize = 0;
        while i < self.commands.len()
            invariant
                key@ == name@,
                i <= self@.len(),
                forall|j: int| 0 <= j < i ==> self@[j].name@ != name@,
            decreases self.commands.len() - i,
        {
            let cn = chars_of(self.commands[i].name.as_str());
            if cn.len() == key.len() && starts_with_chars(&cn, &key) {
                proof {
                    assert(cn@ =~= cn@.subrange(0, key@.len() as int));
                }
                return Some(i);
            }
            proof {
                if cn@ == key@ {
                    assert(cn@.subrange(0, key@.len() as int) =~= key@);
                }
            }
            i = i + 1;
        }
        proof {
            if names_of(self@).contains(name@) {
                let j = choose|j: int| 0 <= j < names_of(self@).len() && names_of(self@)[j] == name@;
                assert(self@[j].name@ == name@);
            }
        }
        None
    }

    /// Whether some stage is named `name`.
    pub fn contains_name(&self, name: &str) -> (r: bool)
        ensures
            r == names_of(self@).contains(name@),
    {
        match self.position(name) {
            Some(i) => {
                proof {
                    assert(names_of(self@)[i as int] == name@);
                }
                true
            },
            None => false,
        }
    }

    /// Looks a stage up by its name or by a start of its name that no
    /// other name shares. A name that is complete wins over longer names
    /// that start with it.
    pub fn find(&self, name: &str) -> (r: Result<usize, PipeError>)
        requires
            self.wf(),
        ensures
            found(self@, name@, r),
    {
        let key = chars_of(name);
        let mut hits: Vec<usize> = Vec::new();
        let mut exact: Option<usize> = None;
        let n = self.commands.len();
        let mut i: usize = 0;
        proof {
            assert(self@.take(0) =~= Seq::<PipeCommand>::empty());
            assert(hits@.map_values(|x: usize| x as int) =~= Seq::<int>::empty());
        }
        while i < n
            invariant
                n == self@.len(),
                key@ == name@,
                i <= n,
                hits@.map_values(|x: usize| x as int) == matching(self@.take(i as int), name@),
                forall|k: int| 0 <= k < hits@.len() ==> #[trigger] hits@[k] < i,
                exact matches Some(e) ==> e < n && self@[e as int].name@ == name@,
                exact is None ==> forall|j: int| 0 <= j < i ==> #[trigger] self@[j].name@ != name@,
            decreases n - i,
        {
            let cn = chars_of(self.commands[i].name.as_str());
            let hit = starts_with_chars(&cn, &key);
            proof {
                let t = self@.take(i + 1);
                assert(t.drop_last() =~= self@.take(i as int));
                assert(t.last() == self@[i as int]);
            }
            if hit {
                proof {
                    assert(hits@.push(i).map_values(|x: usize| x as int)
                        =~= hits@.map_values(|x: usize| x as int).push(i as int));
                }
                hits.push(i);
                if cn.len() == key.len() {
                    proof {
                        assert(cn@ =~= cn@.subrange(0, key@.len() as int));
                    }
                    exact = Some(i);
                }
            }
            proof {
                if cn@ == key@ {
                    assert(cn@.subrange(0, key@.len() as int) =~= key@);
                }
            }
            i = i + 1;
        }
        proof {
            assert(self@.take(n as int) =~= self@);
        }
        let ghost m = matching(self@, name@);
        if let Some(e) = exact {
            proof {
                assert(self@[e as int].name@ == name@);
            }
            return Ok(e);
        }
        proof {
            assert(!has_exact(self@, name@));
        }
        if hits.len() == 0 {
            return Err(PipeError::NotFound(owned(name)));
        }
        if hits.len() == 1 {
            proof {
                assert(m =~= seq![hits@[0] as int]);
            }
            return Ok(hits[0]);
        }
        let mut names: Vec<String> = Vec::new();
        let mut k: usize = 0;
        while k < hits.len()
            invariant
                n == self@.len(),
                k <= hits@.len(),
                hits@.map_values(|x: usize| x as int) == m,
                forall|j: int| 0 <= j < hits@.len() ==> #[trigger] hits@[j] < n,
                views(names@) == m.take(k as int).map_values(|i: int| self@[i].name@),
            decreases hits.len() - k,
        {
            let h = hits[k];
            let w = self.commands[h].name.clone();
            proof {
                assert(m[k as int] == h as int);
                assert(views(names@.push(w)) =~= views(names@).push(w@));
                assert(m.take(k + 1).map_values(|i: int| self@[i].name@)
                    =~= m.take(k as int).map_values(|i: int| self@[i].name@).push(self@[h as int].name@));
            }
            names.push(w);
            k = k + 1;
        }
        proof {
            assert(m.take(hits@.len() as int) =~= m);
        }
        Err(PipeError::Ambiguous(owned(name), names))
    }

    /// Parses the text of one stage: its first word names the stage, the
    /// other words are its arguments.
    pub fn parse_pipe(&self, segment: &str) -> (r: Result<ParsedPipe, PipeError>)
        requires
            self.wf(),
        ensures
            parsed(self@, segment@, r),
    {
        let mut ws = split_words(segment);
        let ghost all = views(ws@);
        let name = if ws.len() > 0 { ws.remove(0) } else { String::new() };
        proof {
            if all.len() > 0 {
                assert(views(ws@) =~= all.skip(1));
            } else {
                assert(views(ws@) =~= Seq::<Seq<char>>::empty());
            }
            assert(name@ == stage_name(segment@));
            assert(views(ws@) == stage_args(segment@));
        }
        let idx = match self.find(name.as_str()) {
            Ok(i) => i,
            Err(e) => {
                return Err(e);
            },
        };
        let cmd = &self.commands[idx];
        let fits = match cmd.shape {
            ArgShape::Exact => ws.len() == cmd.args.len(),
            ArgShape::Remaining => ws.len() >= cmd.args.len(),
        };
        if !fits {
            proof {
                let i = idx as int;
                assert(resolves_to(self@, stage_name(segment@), i) && !arity_fits(self@[i], stage_args(segment@).len())
                    && self@[i].name@ == cmd.name@ && cmd.args@.len() == self@[i].args@.len());
            }
            return Err(PipeError::WrongArgCount {
                command: cmd.name.clone(),
                expected: cmd.args.len(),
                got: ws.len(),
            });
        }
        Ok(ParsedPipe { command_idx: idx, args: ws })
    }

    /// Parses the text of each stage in turn; the first refusal wins.
    pub fn parse_pipes(&self, segments: &Vec<String>) -> (r: Result<Vec<ParsedPipe>, PipeError>)
        requires
            self.wf(),
        ensures
            parsed_all(self@, views(segments@), r),
    {
        let mut out: Vec<ParsedPipe> = Vec::new();
        let mut i: usize = 0;
        while i < segments.len()
            invariant
                self.wf(),
                i <= segments@.len(),
                out@.len() == i,
                forall|j: int| 0 <= j < i ==> parsed(self@, #[trigger] views(segments@)[j], Ok(out@[j])),
            decreases segments.len() - i,
        {
            match self.parse_pipe(segments[i].as_str()) {
                Ok(p) => {
                    out.push(p);
                },
                Err(e) => {
                    proof {
                        let segs = views(segments@);
                        assert(segs[i as int] == segments@[i as int]@);
                        let pre = segs.take(i as int);
                        assert forall|j: int| 0 <= j < pre.len() implies #[trigger] parses(self@, pre[j]) by {
                            assert(pre[j] == segs[j]);
                            assert(parsed(self@, pre[j], Ok(out@[j])));
                        }
                        assert(all_parse(self@, pre));
                        assert(parsed(self@, segs[i as int], Err(e)));
                    }
                    return Err(e);
                },
            }
            i = i + 1;
        }
        Ok(out)
    }

    /// Parses a command line: the command before the first `|`, and the
    /// stages after it. A command that takes no stages refuses any.
    pub fn parse_line(&self, line: &str, pipeable: bool) -> (r: Result<(String, Vec<ParsedPipe>), PipeError>)
        requires
            self.wf(),
        ensures
            (!pipeable && pipe_parts(line@).len() > 1) ==> r matches Err(PipeError::NotAllowed),
            (pipeable || pipe_parts(line@).len() == 1) ==> match r {
                Ok((base, v)) => base@ == pipe_parts(line@)[0] && parsed_all(
                    self@,
                    pipe_parts(line@).skip(1),
                    Ok(v),
                ),
                Err(e) => parsed_all(self@, pipe_parts(line@).skip(1), Err(e)),
            },
    {
        let (base, segs) = split_on_pipes(line);
        proof {
            assert(pipe_parts(line@).skip(1) =~= views(segs@));
        }
        if segs.len() > 0 && !pipeable {
            return Err(PipeError::NotAllowed);
        }
        match self.parse_pipes(&segs) {
            Ok(v) => Ok((base, v)),
            Err(e) => Err(e),
        }
    }
}

proof fn lemma_matching_has(cmds: Seq<PipeCommand>, name: Seq<char>, i: int)
    requires
        0 <= i < cmds.len(),
        starts_with(cmds[i].name@, name),
    ensures
        matching(cmds, name).contains(i),
    decreases cmds.len(),
{
    if i < cmds.len() - 1 {
        lemma_matching_has(cmds.drop_last(), name, i);
        let m = matching(cmds.drop_last(), name);
        let k = choose|k: int| 0 <= k < m.len() && m[k] == i;
        if starts_with(cmds.last().name@, name) {
            assert(matching(cmds, name)[k] == i);
        }
    } else {
        assert(matching(cmds, name).last() == i);
    }
}

/// A name stands for at most one stage.
pub proof fn lemma_resolves_unique(registry: PipeRegistry, name: Seq<char>, i: int, j: int)
    requires
        registry.wf(),
        resolves_to(registry@, name, i),
        resolves_to(registry@, name, j),
    ensures
        i == j,
{
    if has_exact(registry@, name) && i != j {
        if i < j {
            assert(registry@[i].name@ != registry@[j].name@);
        } else {
            assert(registry@[j].name@ != registry@[i].name@);
        }
    }
    if !has_exact(registry@, name) {
        assert(seq![i][0] == i);
        assert(seq![j][0] == j);
    }
}

/// The text of a stage cannot both parse and be refused: what `parsed`
/// says of a result decides whether it is a success.
pub proof fn lemma_parsed_exclusive(registry: PipeRegistry, seg: Seq<char>, p: ParsedPipe, e: PipeError)
    requires
        registry.wf(),
        parsed(registry@, seg, Ok(p)),
    ensures
        !parsed(registry@, seg, Err(e)),
{
    let cmds = registry@;
    let name = stage_name(seg);
    let i = p.command_idx as int;
    if parsed(cmds, seg, Err(e)) {
        match e {
            PipeError::WrongArgCount { .. } => {
                let k = choose|k: int| #![trigger cmds[k]] {
                    &&& resolves_to(cmds, name, k)
                    &&& !arity_fits(cmds[k], stage_args(seg).len())
                    &&& e->command@ == cmds[k].name@
                    &&& e->expected == cmds[k].args.len()
                    &&& e->got == stage_args(seg).len()
                };
                lemma_resolves_unique(registry, name, i, k);
            },
            PipeError::NotFound(_) => {
                if has_exact(cmds, name) {
                    assert(cmds[i].name@.subrange(0, name.len() as int) =~= name);
                    lemma_matching_has(cmds, name, i);
                } else {
                    assert(matching(cmds, name).len() == 1);
                }
            },
            PipeError::Ambiguous(_, _) => {
                assert(matching(cmds, name).len() == 1);
            },
            PipeError::NotAllowed => {},
        }
    }
}

/// Adds the filters that keep or drop lines by a pattern, and `grep`,
/// which runs the system's `grep` on every word after it.
pub fn gen_pipe_cmds(commands: &mut PipeRegistry)
    requires
        old(commands).wf(),
        !names_of(old(commands)@).contains("include"@),
        !names_of(old(commands)@).contains("exclude"@),
        !names_of(old(commands)@).contains("grep"@),
    ensures
        final(commands).wf(),
        final(commands)@.len() == old(commands)@.len() + 3,
        final(commands)@.take(old(commands)@.len() as int) == old(commands)@,
        names_of(final(commands)@).skip(old(commands)@.len() as int) == seq!["include"@, "exclude"@, "grep"@],
        final(commands)@[old(commands)@.len() as int].action == PipeAction::Builtin(Builtin::Include),
        final(commands)@[old(commands)@.len() as int + 1].action == PipeAction::Builtin(Builtin::Exclude),
        final(commands)@[old(commands)@.len() as int + 2].action matches PipeAction::External { binary: b, fixed_args: f }
            && b@ == "grep"@ && f@.len() == 0,
        views(final(commands)@[old(commands)@.len() as int].args@) == seq!["pattern"@],
        views(final(commands)@[old(commands)@.len() as int + 1].args@) == seq!["pattern"@],
        views(final(commands)@[old(commands)@.len() as int + 2].args@) == seq!["args"@],
        final(commands)@[old(commands)@.len() as int].help@ == "Keep only lines matching PATTERN"@,
        final(commands)@[old(commands)@.len() as int + 1].help@ == "Remove lines matching PATTERN"@,
        final(commands)@[old(commands)@.len() as int + 2].help@ == "Filter output using the system grep binary"@,
        final(commands)@[old(commands)@.len() as int].shape == ArgShape::Exact,
        final(commands)@[old(commands)@.len() as int + 1].shape == ArgShape::Exact,
        final(commands)@[old(commands)@.len() as int + 2].shape == ArgShape::Remaining,
{
    proof {
        reveal_strlit("include");
        reveal_strlit("exclude");
        reveal_strlit("grep");
    }
    let ghost n: int = commands@.len() as int;
    let ghost before = commands@;
    let mut r = PipeRegistry::new();
    std::mem::swap(commands, &mut r);
    let one: [&str; 1] = ["pattern"];
    assert(one@.map_values(|s: &str| s@) =~= seq!["pattern"@]);
    let r = r.builtin("include", "Keep only lines matching PATTERN", &one, Builtin::Include);
    proof {
        assert(names_of(r@) =~= names_of(before).push("include"@));
        if names_of(r@).contains("exclude"@) {
            let j = choose|j: int| 0 <= j < names_of(r@).len() && names_of(r@)[j] == "exclude"@;
            if j < n {
                assert(names_of(before)[j] == "exclude"@);
            } else {
                assert("include"@[0] != "exclude"@[0]);
            }
        }
    }
    let ghost r1 = r@;
    let r = r.builtin("exclude", "Remove lines matching PATTERN", &one, Builtin::Exclude);
    proof {
        assert(names_of(r@) =~= names_of(before).push("include"@).push("exclude"@));
        if names_of(r@).contains("grep"@) {
            let j = choose|j: int| 0 <= j < names_of(r@).len() && names_of(r@)[j] == "grep"@;
            if j < n {
                assert(names_of(before)[j] == "grep"@);
            } else {
                assert(names_of(r@)[j].len() == 7);
            }
        }
    }
    let empty: [&str; 0] = [];
    let words_arg: [&str; 1] = ["args"];
    assert(words_arg@.map_values(|s: &str| s@) =~= seq!["args"@]);
    let ghost r2 = r@;
    let r = r.external("grep", "Filter output using the system grep binary", &words_arg, "grep", &empty);
    proof {
        assert(r@[n as int] == r1.last());
        assert(r@[n as int + 1] == r2.last());
        assert(names_of(r@) =~= names_of(before).push("include"@).push("exclude"@).push("grep"@));
        assert(names_of(r@).skip(n as int) =~= seq!["include"@, "exclude"@, "grep"@]);
        assert(r@.take(n as int) =~= before);
        assert(r@[n as int] == r@.drop_last().drop_last().last());
        assert(r@[n as int + 1] == r@.drop_last().last());
        assert(views(r@.last().action->fixed_args@) =~= Seq::<Seq<char>>::empty());
    }
    *commands = r;
}

/// The catalog of every stage: `include`, `exclude`, `grep`, `count`,
/// `begin` and `no-more`, in that order.
pub fn default_registry() -> (r: PipeRegistry)
    ensures
        r.wf(),
        names_of(r@) == seq!["include"@, "exclude"@, "grep"@, "count"@, "begin"@, "no-more"@],
        r@[0].action == PipeAction::Builtin(Builtin::Include),
        r@[1].action == PipeAction::Builtin(Builtin::Exclude),
        r@[2].action matches PipeAction::External { binary: b, fixed_args: f } && b@ == "grep"@ && f@.len() == 0,
        r@[3].action == PipeAction::Builtin(Builtin::Count),
        r@[4].action == PipeAction::Builtin(Builtin::Begin),
        r@[5].action == PipeAction::Builtin(Builtin::NoMore),
        views(r@[0].args@) == seq!["pattern"@] && views(r@[1].args@) == seq!["pattern"@],
        views(r@[2].args@) == seq!["args"@],
        r@[3].args@.len() == 0 && views(r@[4].args@) == seq!["pattern"@] && r@[5].args@.len() == 0,
        r@[0].help@ == "Keep only lines matching PATTERN"@,
        r@[1].help@ == "Remove lines matching PATTERN"@,
        r@[2].help@ == "Filter output using the system grep binary"@,
        r@[3].help@ == "Count output lines"@,
        r@[4].help@ == "Show output from the first line matching PATTERN"@,
        r@[5].help@ == "Disable pager"@,
        r@[0].shape == ArgShape::Exact && r@[1].shape == ArgShape::Exact,
        r@[2].shape == ArgShape::Remaining,
        r@[3].shape == ArgShape::Exact && r@[4].shape == ArgShape::Exact && r@[5].shape == ArgShape::Exact,
{
    proof {
        reveal_strlit("include");
        reveal_strlit("exclude");
        reveal_strlit("grep");
        reveal_strlit("count");
        reveal_strlit("begin");
        reveal_strlit("no-more");
    }
    let mut r = PipeRegistry::new();
    proof {
        assert(names_of(r@) =~= Seq::<Seq<char>>::empty());
    }
    gen_pipe_cmds(&mut r);
    proof {
        assert(r@.take(0) =~= Seq::<PipeCommand>::empty());
        assert(names_of(r@).skip(0) =~= names_of(r@));
        assert(names_of(r@)[0] == "include"@);
        assert(names_of(r@)[1] == "exclude"@);
        assert(names_of(r@)[2] == "grep"@);
        assert(!names_of(r@).contains("count"@)) by {
            if names_of(r@).contains("count"@) {
                let j = choose|j: int| 0 <= j < names_of(r@).len() && names_of(r@)[j] == "count"@;
                assert(names_of(r@)[j][0] != "count"@[0]);
            }
        }
    }
    let ghost g = r@;
    let none: [&str; 0] = [];
    let one: [&str; 1] = ["pattern"];
    assert(one@.map_values(|s: &str| s@) =~= seq!["pattern"@]);
    let r = r.builtin("count", "Count output lines", &none, Builtin::Count);
    assert(r@.last().args@.len() == 0) by {
        assert(views(r@.last().args@).len() == r@.last().args@.len());
    }
    proof {
        assert(names_of(r@) =~= names_of(g).push("count"@));
        assert(!names_of(r@).contains("begin"@)) by {
            if names_of(r@).contains("begin"@) {
                let j = choose|j: int| 0 <= j < names_of(r@).len() && names_of(r@)[j] == "begin"@;
                assert(names_of(r@)[j][0] != "begin"@[0] || names_of(r@)[j].len() != 5);
            }
        }
    }
    let ghost g2 = r@;
    let r = r.builtin("begin", "Show output from the first line matching PATTERN", &one, Builtin::Begin);
    proof {
        assert(names_of(r@) =~= names_of(g2).push("begin"@));
        assert(!names_of(r@).contains("no-more"@)) by {
            if names_of(r@).contains("no-more"@) {
                let j = choose|j: int| 0 <= j < names_of(r@).len() && names_of(r@)[j] == "no-more"@;
                assert(names_of(r@)[j][0] != "no-more"@[0] || names_of(r@)[j].len() != 7);
            }
        }
    }
    let ghost g3 = r@;
    let r = r.builtin("no-more", "Disable pager", &none, Builtin::NoMore);
    assert(r@.last().args@.len() == 0) by {
        assert(views(r@.last().args@).len() == r@.last().args@.len());
    }
    proof {
        assert(names_of(r@) =~= names_of(g3).push("no-more"@));
        assert(names_of(r@) =~= seq!["include"@, "exclude"@, "grep"@, "count"@, "begin"@, "no-more"@]);
        assert(r@[0] == g[0] && r@[1] == g[1] && r@[2] == g[2]);
        assert(r@[3] == g2.last() && r@[4] == g3.last());
    }
    r.build()
}

} // verus!
