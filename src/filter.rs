//! The builtin filters, and a stage that runs one of them on a stream that
//! arrives in pieces.
use vstd::prelude::*;
use vstd::utf8::encode_utf8;
use crate::lines::{concat, ended_raw, ended_text, lines_of, raw_lines, text_lines, unlines, NEWLINE};

verus! {

/// The filters that run inside the process.
#[derive(Clone, Copy, Debug, PartialEq, Eq, Structural)]
pub enum Builtin {
    /// Keep the lines that hold the pattern.
    Include,
    /// Drop the lines that hold the pattern.
    Exclude,
    /// One line with the number of input lines.
    Count,
    /// Drop the lines before the first one that holds the pattern.
    Begin,
    /// Pass the bytes on as they are.
    NoMore,
}

/// `p` occurs in `l` as a contiguous run.
pub open spec fn has_pattern(l: Seq<u8>, p: Seq<u8>) -> bool {
    exists|i: int| 0 <= i && i + p.len() <= l.len() && #[trigger] l.subrange(i, i + p.len()) == p
}

/// Whether a line is kept: holding `p` when `keep`, lacking it otherwise.
pub open spec fn matcher(p: Seq<u8>, keep: bool) -> spec_fn(Seq<u8>) -> bool {
    |l: Seq<u8>| has_pattern(l, p) == keep
}

/// The index of the first line of `ls` that holds `p`.
pub open spec fn first_match(ls: Seq<Seq<u8>>, p: Seq<u8>) -> Option<int>
    decreases ls.len(),
{
    if ls.len() == 0 {
        None
    } else {
        match first_match(ls.drop_last(), p) {
            Some(i) => Some(i),
            None => if has_pattern(ls.last(), p) {
                Some(ls.len() - 1)
            } else {
                None
            },
        }
    }
}

pub proof fn lemma_first_match_range(ls: Seq<Seq<u8>>, p: Seq<u8>)
    ensures
        first_match(ls, p) matches Some(i) ==> 0 <= i < ls.len() && has_pattern(ls[i], p),
        first_match(ls, p) is None ==> forall|i: int| 0 <= i < ls.len() ==> !has_pattern(#[trigger] ls[i], p),
    decreases ls.len(),
{
    if ls.len() > 0 {
        lemma_first_match_range(ls.drop_last(), p);
        assert forall|i: int| 0 <= i < ls.len() - 1 implies ls[i] == #[trigger] ls.drop_last()[i] by {}
        if first_match(ls, p) is None {
            assert forall|i: int| 0 <= i < ls.len() implies !has_pattern(#[trigger] ls[i], p) by {
                if i < ls.len() - 1 {
                    assert(ls[i] == ls.drop_last()[i]);
                }
            }
        }
    }
}

/// The lines from the first one that holds `p` on; none if no line does.
pub open spec fn from_first_match(ls: Seq<Seq<u8>>, p: Seq<u8>) -> Seq<Seq<u8>> {
    match first_match(ls, p) {
        Some(i) => ls.skip(i),
        None => Seq::empty(),
    }
}

/// The decimal digits of `n`, most significant first.
pub open spec fn decimal(n: nat) -> Seq<u8>
    decreases n,
{
    if n < 10 {
        seq![(48 + n) as u8]
    } else {
        decimal(n / 10).push((48 + n % 10) as u8)
    }
}

/// The lines that a line filter passes on.
pub open spec fn kept(rule: Builtin, p: Seq<u8>, ls: Seq<Seq<u8>>) -> Seq<Seq<u8>> {
    match rule {
        Builtin::Include => ls.filter(matcher(p, true)),
        Builtin::Exclude => ls.filter(matcher(p, false)),
        Builtin::Begin => from_first_match(ls, p),
        _ => ls,
    }
}

/// What a stage writes for the whole input `s`. The line filters read the
/// lines as text (a carriage return and line feed count as one break) and
/// end each line they keep with a line feed.
pub open spec fn stage_output(rule: Builtin, p: Seq<u8>, s: Seq<u8>) -> Seq<u8> {
    match rule {
        Builtin::Count => decimal(lines_of(s).len()).push(NEWLINE),
        Builtin::NoMore => s,
        _ => unlines(kept(rule, p, text_lines(s))),
    }
}

/// What a stage has written once `s` has arrived and before the input
/// ends: each line as soon as its line break is seen.
pub open spec fn early_output(rule: Builtin, p: Seq<u8>, s: Seq<u8>) -> Seq<u8> {
    match rule {
        Builtin::Count => Seq::empty(),
        Builtin::NoMore => s,
        _ => unlines(kept(rule, p, ended_text(s))),
    }
}

/// What a line writer that keeps (`keep`) or drops the lines holding `p`
/// writes for the whole input `s`: the lines it keeps, byte for byte, each
/// matched with its line feed; a final fragment without one passes as it is.
pub open spec fn passed_output(keep: bool, p: Seq<u8>, s: Seq<u8>) -> Seq<u8> {
    concat(raw_lines(s).filter(matcher(p, keep)))
}

/// What such a line writer has written before the input ends.
pub open spec fn passed_early(keep: bool, p: Seq<u8>, s: Seq<u8>) -> Seq<u8> {
    concat(ended_raw(s).filter(matcher(p, keep)))
}

/// What a filter writes for the whole input: as a line writer (`raw`) or
/// as a stage.
pub open spec fn filter_output(raw: bool, rule: Builtin, p: Seq<u8>, s: Seq<u8>) -> Seq<u8> {
    if raw {
        passed_output(rule == Builtin::Include, p, s)
    } else {
        stage_output(rule, p, s)
    }
}

/// What a filter has written before the input ends: as a line writer
/// (`raw`) or as a stage.
pub open spec fn filter_early(raw: bool, rule: Builtin, p: Seq<u8>, s: Seq<u8>) -> Seq<u8> {
    if raw {
        passed_early(rule == Builtin::Include, p, s)
    } else {
        early_output(rule, p, s)
    }
}

/// The bytes of the first argument, or nothing when there is none.
pub open spec fn pattern_of(args: Seq<String>) -> Seq<u8> {
    if args.len() > 0 {
        encode_utf8(args[0]@)
    } else {
        Seq::empty()
    }
}

pub proof fn lemma_decimal_len(n: nat, k: nat, bound: nat)
    requires
        n < bound,
        bound == pow10(k),
        k >= 1,
    ensures
        decimal(n).len() <= k,
    decreases k,
{
    if n >= 10 {
        assert(k >= 2) by {
            if k == 1 {
                assert(pow10(1) == 10 * pow10(0));
            }
        }
        assert(pow10(k) == 10 * pow10((k - 1) as nat));
        lemma_decimal_len(n / 10, (k - 1) as nat, pow10((k - 1) as nat));
    }
}

pub open spec fn pow10(k: nat) -> nat
    decreases k,
{
    if k == 0 {
        1
    } else {
        10 * pow10((k - 1) as nat)
    }
}

/// Every count that fits in 64 bits has at most twenty digits.
pub proof fn lemma_decimal_u64(n: nat)
    requires
        n <= u64::MAX,
    ensures
        decimal(n).len() <= 20,
{
    reveal_with_fuel(pow10, 21);
    assert(pow10(20) == 100000000000000000000nat);
    lemma_decimal_len(n, 20, pow10(20));
}

/// The digits of `n` as bytes.
pub fn decimal_bytes(n: u64) -> (r: Vec<u8>)
    ensures
        r@ == decimal(n as nat),
    decreases n,
{
    if n < 10 {
        vec![(48 + n) as u8]
    } else {
        let mut v = decimal_bytes(n / 10);
        v.push((48 + n % 10) as u8);
        v
    }
}

/// Whether `p` occurs in `l`.
pub fn contains_bytes(l: &[u8], p: &[u8]) -> (r: bool)
    ensures
        r == has_pattern(l@, p@),
{
    if p.len() > l.len() {
        return false;
    }
    let mut i: usize = 0;
    while i <= l.len() - p.len()
        invariant
            p.len() <= l.len(),
            i <= l.len() - p.len() + 1,
            forall|k: int| 0 <= k < i ==> #[trigger] l@.subrange(k, k + p@.len()) != p@,
        decreases l.len() - i,
    {
        let mut j: usize = 0;
        let mut same = true;
        while j < p.len()
            invariant
                i + p.len() <= l.len(),
                j <= p.len(),
                same == (forall|m: int| 0 <= m < j ==> l@[i + m] == p@[m]),
            decreases p.len() - j,
        {
            if l[i + j] != p[j] {
                same = false;
            }
            j += 1;
        }
        if same {
            assert(l@.subrange(i as int, i + p@.len()) =~= p@);
            return true;
        }
        assert(l@.subrange(i as int, i + p@.len()) != p@) by {
            let m = choose|m: int| 0 <= m < p.len() && l@[i + m] != p@[m];
            assert(l@.subrange(i as int, i + p@.len())[m] == l@[i + m]);
        }
        i += 1;
    }
    assert forall|k: int| 0 <= k && k + p@.len() <= l@.len() implies #[trigger] l@.subrange(k, k + p@.len()) != p@ by {
        assert(k < i);
    }
    false
}

/// The bytes of a string.
pub fn bytes_of(s: &str) -> (r: Vec<u8>)
    ensures
        r@ == encode_utf8(s@),
{
    let b = s.as_bytes();
    vstd::slice::slice_to_vec(b)
}

} // verus!
