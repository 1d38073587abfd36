//! The prompt of the interactive shell, and the completion of the stages
//! typed after a `|`.
use vstd::prelude::*;
use vstd::utf8::encode_utf8;
use crate::pipe::{names_of, starts_with, stage_name, PipeCommand, PipeRegistry};
use crate::text::{chars_of, is_white, is_white_char, split_words, views, words};

verus! {

/// Shown after the prompt text.
pub const DEFAULT_PROMPT_INDICATOR: &'static str = "# ";

/// Shown at the start of each continued line.
pub const DEFAULT_MULTILINE_INDICATOR: &'static str = "::: ";

/// The prompt text, which changes with the mode and the position in the
/// configuration tree.
pub struct CliPrompt(String);

impl View for CliPrompt {
    type V = Seq<char>;

    closed spec fn view(&self) -> Seq<char> {
        self.0@
    }
}

impl CliPrompt {
    pub fn new(string: String) -> (r: CliPrompt)
        ensures
            r@ == string@,
    {
        CliPrompt(string)
    }

    /// Replaces the prompt text.
    pub fn update(&mut self, string: String)
        ensures
            final(self)@ == string@,
    {
        self.0 = string;
    }

    /// The text left of the cursor.
    pub fn render_prompt_left(&self) -> (r: String)
        ensures
            r@ == self@,
    {
        self.0.clone()
    }

    /// The text right of the cursor: none.
    pub fn render_prompt_right(&self) -> (r: &'static str)
        ensures
            r@.len() == 0,
    {
        proof {
            reveal_strlit("");
        }
        ""
    }

    pub fn render_prompt_indicator(&self) -> (r: &'static str)
        ensures
            r@ == DEFAULT_PROMPT_INDICATOR@,
    {
        DEFAULT_PROMPT_INDICATOR
    }

    /// Shown while searching the history for `term`; `failing` when
    /// nothing matches.
    pub fn render_prompt_history_search_indicator(&self, failing: bool, term: &str) -> (r: String)
        ensures
            r@ == "("@ + (if failing { "failing "@ } else { Seq::empty() }) + "reverse-search: "@
                + term@ + ") "@,
    {
        let mut r = String::from_str("(");
        let ghost start = r@;
        if failing {
            r.append("failing ");
        }
        proof {
            assert(r@ == start + (if failing { "failing "@ } else { Seq::<char>::empty() })) by {
                if !failing {
                    assert(start + Seq::<char>::empty() =~= start);
                }
            }
        }
        r.append("reverse-search: ");
        r.append(term);
        r.append(") ");
        r
    }

    pub fn render_prompt_multiline_indicator(&self) -> (r: &'static str)
        ensures
            r@ == DEFAULT_MULTILINE_INDICATOR@,
    {
        DEFAULT_MULTILINE_INDICATOR
    }
}

/// What `str::to_uppercase` gives for `s`.
pub uninterp spec fn upper_of(s: Seq<char>) -> Seq<char>;

/// Relies on `str::to_uppercase`: its result depends on the characters of
/// `s` alone.
#[verifier::external_body]
fn uppercase(s: &str) -> (r: String)
    ensures
        r@ == upper_of(s@),
{
    s.to_uppercase()
}

/// A proposed completion: the text, its help, and the byte range of the
/// line that it replaces.
pub struct Suggestion {
    pub value: String,
    pub description: Option<String>,
    pub start: usize,
    pub end: usize,
    pub append_whitespace: bool,
}

/// The text ends inside a word.
pub open spec fn ends_in_word(s: Seq<char>) -> bool {
    s.len() > 0 && !is_white(s.last())
}

/// `r` describes the argument hints `args[from..]` of a stage with help
/// `help`, at `pos`.
pub open spec fn arg_hints(r: Seq<Suggestion>, args: Seq<String>, from: int, help: Seq<char>, pos: usize) -> bool {
    &&& r.len() == args.len() - from
    &&& forall|i: int| 0 <= i < r.len() ==> {
        &&& (#[trigger] r[i]).value@ == upper_of(args[from + i]@)
        &&& r[i].description matches Some(d) && d@ == help
        &&& r[i].start == pos && r[i].end == pos
        &&& r[i].append_whitespace
    }
}

/// The stages whose name starts with `first`, or all when `first` is empty.
pub open spec fn name_hits(cmds: Seq<PipeCommand>, first: Seq<char>) -> Seq<PipeCommand> {
    cmds.filter(|c: PipeCommand| first.len() == 0 || starts_with(c.name@, first))
}

/// `r` proposes the names of `cs`, replacing the bytes from `start` to `pos`.
pub open spec fn name_suggestions(r: Seq<Suggestion>, cs: Seq<PipeCommand>, start: usize, pos: usize) -> bool {
    &&& r.len() == cs.len()
    &&& forall|i: int| 0 <= i < r.len() ==> {
        &&& (#[trigger] r[i]).value@ == cs[i].name@
        &&& r[i].description matches Some(d) && d@ == cs[i].help@
        &&& r[i].start == start && r[i].end == pos
        &&& r[i].append_whitespace
    }
}

fn name_suggestion(c: &PipeCommand, start: usize, pos: usize) -> (r: Suggestion)
    ensures
        r.value@ == c.name@,
        r.description matches Some(d) && d@ == c.help@,
        r.start == start && r.end == pos && r.append_whitespace,
{
    Suggestion {
        value: c.name.clone(),
        description: Some(c.help.clone()),
        start,
        end: pos,
        append_whitespace: true,
    }
}

/// Completes the text typed after the last `|`, with the cursor at byte
/// `pos` of the line. A complete stage name followed by white space gets
/// the names of the arguments still missing; anything else gets the stage
/// names that start with the first word.
pub fn complete_pipe(registry: &PipeRegistry, after_pipe: &str, pos: usize) -> (r: Vec<Suggestion>)
    requires
        registry.wf(),
        !(names_of(registry@).contains(Seq::<char>::empty()) && words(after_pipe@).len() == 0),
        ends_in_word(after_pipe@) ==> encode_utf8(stage_name(after_pipe@)).len() <= pos,
    ensures
        ({
            let ws = words(after_pipe@);
            let first = stage_name(after_pipe@);
            let partial = ends_in_word(after_pipe@);
            if names_of(registry@).contains(first) && (ws.len() > 1 || !partial) {
                let provided = if partial { ws.len() - 2 } else { ws.len() - 1 };
                exists|i: int| #![trigger registry@[i]] 0 <= i < registry@.len() && registry@[i].name@ == first && if !partial && provided < registry@[i].args@.len() {
                    arg_hints(r@, registry@[i].args@, provided, registry@[i].help@, pos)
                } else {
                    r@.len() == 0
                }
            } else {
                name_suggestions(
                    r@,
                    name_hits(registry@, first),
                    if partial { (pos - encode_utf8(first).len()) as usize } else { pos },
                    pos,
                )
            }
        }),
{
    let mut ws = split_words(after_pipe);
    let n_words = ws.len();
    let first = if ws.len() > 0 { ws.remove(0) } else { String::new() };
    let cs = chars_of(after_pipe);
    let partial = cs.len() > 0 && !is_white_char(cs[cs.len() - 1]);
    proof {
        assert(first@ == stage_name(after_pipe@));
    }
    let exact = registry.position(first.as_str());
    let cmds = registry.commands();
    if exact.is_some() && (n_words > 1 || !partial) {
        let ghost first_v = first@;
        let idx = match exact {
            Some(i) => i,
            None => 0,
        };
        proof {
            assert(names_of(registry@)[idx as int] == first_v);
            if n_words == 0 {
                assert(first_v =~= Seq::<char>::empty());
            }
        }
        let cmd = &cmds[idx];
        let provided: usize = if partial { n_words - 2 } else { n_words - 1 };
        let mut out: Vec<Suggestion> = Vec::new();
        if !partial && provided < cmd.args.len() {
            let mut k: usize = provided;
            while k < cmd.args.len()
                invariant
                    provided <= k <= cmd.args@.len(),
                    arg_hints(out@, cmd.args@.take(k as int), provided as int, cmd.help@, pos),
                decreases cmd.args.len() - k,
            {
                let v = uppercase(cmd.args[k].as_str());
                out.push(Suggestion {
                    value: v,
                    description: Some(cmd.help.clone()),
                    start: pos,
                    end: pos,
                    append_whitespace: true,
                });
                k = k + 1;
                proof {
                    let t = cmd.args@.take(k as int);
                    assert forall|i: int| 0 <= i < out@.len() implies (#[trigger] out@[i]).value@ == upper_of(t[provided + i]@) by {
                        assert(t[provided + i] == cmd.args@[provided + i]);
                    }
                }
            }
            proof {
                assert(cmd.args@.take(cmd.args@.len() as int) =~= cmd.args@);
            }
        }
        proof {
            assert(registry@[idx as int].name@ == first_v);
        }
        return out;
    }
    let start: usize = if partial { pos - first.as_str().len() } else { pos };
    let ghost pred = |c: PipeCommand| first@.len() == 0 || starts_with(c.name@, first@);
    let key = chars_of(first.as_str());
    let mut out: Vec<Suggestion> = Vec::new();
    let mut i: usize = 0;
    proof {
        reveal(Seq::filter);
        assert(cmds@.take(0) =~= Seq::<PipeCommand>::empty());
    }
    while i < cmds.len()
        invariant
            cmds@ == registry@,
            key@ == first@,
            pred == (|c: PipeCommand| first@.len() == 0 || starts_with(c.name@, first@)),
            i <= cmds@.len(),
            name_suggestions(out@, cmds@.take(i as int).filter(pred), start, pos),
        decreases cmds.len() - i,
    {
        let c = &cmds[i];
        let cn = chars_of(c.name.as_str());
        let hit = key.len() == 0 || crate::pipe::starts_with_chars(&cn, &key);
        let ghost before = cmds@.take(i as int).filter(pred);
        proof {
            reveal(Seq::filter);
            assert(cmds@.take(i + 1).drop_last() =~= cmds@.take(i as int));
            assert(cmds@.take(i + 1).last() == cmds@[i as int]);
            assert(pred(cmds@[i as int]) == hit);
        }
        if hit {
            let sg = name_suggestion(c, start, pos);
            out.push(sg);
            proof {
                let after = cmds@.take(i + 1).filter(pred);
                assert(after == before.push(cmds@[i as int]));
                assert forall|j: int| 0 <= j < out@.len() implies (#[trigger] out@[j]).value@ == after[j].name@
                    && (out@[j].description matches Some(d) && d@ == after[j].help@) by {
                    if j < before.len() {
                        assert(after[j] == before[j]);
                    }
                }
            }
        }
        i = i + 1;
    }
    proof {
        assert(cmds@.take(cmds@.len() as int) =~= cmds@);
    }
    out
}

} // verus!
