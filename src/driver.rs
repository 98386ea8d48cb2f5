//! The block driver: a count line, a blank separator line, then that many
//! blocks of fragment lines, each ended by a blank line or the end of input.

use vstd::prelude::*;
use crate::decimal::{parse_bounded, parse_unsigned};
use crate::dominance::{solve_stable, solve_stable_spec};
use crate::fragment::{is_bit_string, is_fragment, views};
use crate::slots::{opt_view, solve_classified, solve_classified_spec};

verus! {

/// Which heuristic reconstructs a block.
#[derive(Clone, Copy, Debug, PartialEq, Eq, Structural)]
pub enum Strategy {
    /// The slot table and the repeated-candidate resolver.
    Classified,
    /// The dominance filter and the vote.
    Stable,
}

/// A failure that ends the whole run.
#[derive(Clone, Copy, Debug, PartialEq, Eq, Structural)]
pub enum RunError {
    /// The first line is not an unsigned integer.
    MalformedCount,
    /// The line after the count is not blank.
    MissingSeparator,
    /// The input could not be read.
    IOFailure,
}

/// A failure of one block; the blocks after it are still processed.
#[derive(Clone, Copy, Debug, PartialEq, Eq, Structural)]
pub enum BlockError {
    /// Line `line` (1-based, within block `block`, 1-based) holds a character
    /// other than `0` and `1`.
    InvalidFragment { block: usize, line: usize },
    /// Block `block` (1-based) has no answer under the chosen strategy.
    Unsolvable { block: usize },
}

/// What `strategy` makes of a block of valid fragments.
pub open spec fn strategy_spec(strategy: Strategy, fs: Seq<Seq<char>>) -> Option<Seq<char>> {
    match strategy {
        Strategy::Classified => solve_classified_spec(fs),
        Strategy::Stable => solve_stable_spec(fs),
    }
}

/// The position of the first line at or after `i` that is not a fragment,
/// or `fs.len()` when there is none.
pub open spec fn first_invalid_from(fs: Seq<Seq<char>>, i: int) -> int
    decreases fs.len() - i,
{
    if i >= fs.len() {
        fs.len() as int
    } else if !is_bit_string(fs[i]) {
        i
    } else {
        first_invalid_from(fs, i + 1)
    }
}

/// The outcome of block number `block` whose lines are `fs`.
pub open spec fn block_outcome(strategy: Strategy, fs: Seq<Seq<char>>, block: usize) -> Result<
    Seq<char>,
    BlockError,
> {
    let bad = first_invalid_from(fs, 0);
    if bad < fs.len() {
        Err(BlockError::InvalidFragment { block, line: (bad + 1) as usize })
    } else {
        match strategy_spec(strategy, fs) {
            Some(s) => Ok(s),
            None => Err(BlockError::Unsolvable { block }),
        }
    }
}

pub open spec fn outcome_view(r: Result<String, BlockError>) -> Result<Seq<char>, BlockError> {
    match r {
        Ok(s) => Ok(s@),
        Err(e) => Err(e),
    }
}

/// Solves block number `block`, whose fragment lines are `lines`.
pub fn solve_block(strategy: Strategy, lines: &Vec<String>, block: usize) -> (r: Result<String, BlockError>)
    ensures
        outcome_view(r) == block_outcome(strategy, views(lines@), block),
{
    let ghost fs = views(lines@);
    let mut i: usize = 0;
    while i < lines.len()
        invariant
            i <= lines@.len(),
            fs == views(lines@),
            first_invalid_from(fs, 0) == first_invalid_from(fs, i as int),
        decreases lines@.len() - i,
    {
        if !is_fragment(lines[i].as_str()) {
            assert(first_invalid_from(fs, i as int) == i);
            return Err(BlockError::InvalidFragment { block, line: i + 1 });
        }
        i = i + 1;
    }
    let found = match strategy {
        Strategy::Classified => solve_classified(lines),
        Strategy::Stable => solve_stable(lines),
    };
    match found {
        Some(s) => Ok(s),
        None => Err(BlockError::Unsolvable { block }),
    }
}

/// The position of the first blank line at or after `i`, or `ls.len()`.
pub open spec fn block_end(ls: Seq<Seq<char>>, i: int) -> int
    decreases ls.len() - i,
{
    if i >= ls.len() {
        ls.len() as int
    } else if ls[i].len() == 0 {
        i
    } else {
        block_end(ls, i + 1)
    }
}

proof fn lemma_block_end_bounds(ls: Seq<Seq<char>>, i: int)
    requires
        0 <= i <= ls.len(),
    ensures
        i <= block_end(ls, i) <= ls.len(),
    decreases ls.len() - i,
{
    if i < ls.len() && ls[i].len() != 0 {
        lemma_block_end_bounds(ls, i + 1);
    }
}

/// Where the block after the one starting at `i` starts: past the blank line
/// that ends it, or at the end of input.
pub open spec fn next_block(ls: Seq<Seq<char>>, i: int) -> int {
    let e = block_end(ls, i);
    if e < ls.len() { e + 1 } else { e }
}

/// The outcomes of `n` blocks read from line `i` on, numbered from `first`.
pub open spec fn blocks_outcomes(
    strategy: Strategy,
    ls: Seq<Seq<char>>,
    i: int,
    first: nat,
    n: nat,
) -> Seq<Result<Seq<char>, BlockError>>
    decreases n,
{
    if n == 0 {
        seq![]
    } else {
        seq![block_outcome(strategy, ls.subrange(i, block_end(ls, i)), first as usize)]
            + blocks_outcomes(strategy, ls, next_block(ls, i), first + 1, (n - 1) as nat)
    }
}

/// The outcome of a whole input: a count line, a blank line (which the end
/// of input stands in for), then that many blocks.
pub open spec fn run_spec(strategy: Strategy, ls: Seq<Seq<char>>) -> Result<
    Seq<Result<Seq<char>, BlockError>>,
    RunError,
> {
    let count = if ls.len() == 0 { None } else { parse_unsigned(ls[0], usize::MAX as nat) };
    match count {
        None => Err(RunError::MalformedCount),
        Some(n) => if ls.len() > 1 && ls[1].len() != 0 {
            Err(RunError::MissingSeparator)
        } else {
            Ok(blocks_outcomes(strategy, ls, if ls.len() < 2 { ls.len() as int } else { 2 }, 1, n))
        },
    }
}

pub open spec fn outcomes_view(v: Seq<Result<String, BlockError>>) -> Seq<Result<Seq<char>, BlockError>> {
    v.map_values(|r: Result<String, BlockError>| outcome_view(r))
}

/// The lines from `start` up to the blank line or end of input that ends the
/// block, and where that is.
fn take_block(lines: &Vec<String>, start: usize) -> (r: (Vec<String>, usize))
    requires
        start <= lines@.len(),
    ensures
        r.1 as int == block_end(views(lines@), start as int),
        start <= r.1 <= lines@.len(),
        views(r.0@) == views(lines@).subrange(start as int, r.1 as int),
{
    let ghost ls = views(lines@);
    proof {
        lemma_block_end_bounds(ls, start as int);
    }
    let mut block: Vec<String> = Vec::new();
    let mut i: usize = start;
    while i < lines.len() && lines[i].unicode_len() != 0
        invariant
            start <= i <= lines@.len(),
            ls == views(lines@),
            block_end(ls, start as int) == block_end(ls, i as int),
            views(block@) == ls.subrange(start as int, i as int),
        decreases lines@.len() - i,
    {
        let ghost prev = block@;
        block.push(lines[i].clone());
        proof {
            assert(views(block@) =~= views(prev).push(ls[i as int]));
            assert(views(block@) =~= ls.subrange(start as int, i + 1));
        }
        i = i + 1;
    }
    (block, i)
}

/// Solves every block of an input given as its lines, with surrounding
/// whitespace already removed. Fails as a whole on a malformed count or a
/// missing separator; otherwise each block has its own outcome.
pub fn solve_lines(strategy: Strategy, lines: &Vec<String>) -> (r: Result<
    Vec<Result<String, BlockError>>,
    RunError,
>)
    ensures
        match r {
            Ok(v) => run_spec(strategy, views(lines@)) == Ok::<_, RunError>(outcomes_view(v@)),
            Err(e) => run_spec(strategy, views(lines@)) == Err::<Seq<Result<Seq<char>, BlockError>>, _>(e),
        },
{
    let ghost ls = views(lines@);
    if lines.len() == 0 {
        return Err(RunError::MalformedCount);
    }
    let count = match parse_bounded(lines[0].as_str(), usize::MAX as u64) {
        Some(c) => c as usize,
        None => {
            return Err(RunError::MalformedCount);
        },
    };
    if lines.len() > 1 && lines[1].unicode_len() != 0 {
        return Err(RunError::MissingSeparator);
    }
    let start: usize = if lines.len() < 2 { lines.len() } else { 2 };
    let mut out: Vec<Result<String, BlockError>> = Vec::new();
    let mut pos: usize = start;
    let mut done: usize = 0;
    while done < count
        invariant
            done <= count,
            pos <= lines@.len(),
            ls == views(lines@),
            outcomes_view(out@) + blocks_outcomes(strategy, ls, pos as int, (done + 1) as nat, (count - done) as nat)
                == blocks_outcomes(strategy, ls, start as int, 1, count as nat),
        decreases count - done,
    {
        let (block, end) = take_block(lines, pos);
        let outcome = solve_block(strategy, &block, done + 1);
        let ghost rest = blocks_outcomes(strategy, ls, next_block(ls, pos as int), (done + 2) as nat, (count - done - 1) as nat);
        proof {
            assert(blocks_outcomes(strategy, ls, pos as int, (done + 1) as nat, (count - done) as nat)
                == seq![outcome_view(outcome)] + rest);
        }
        let ghost prev = out@;
        let ghost o = outcome_view(outcome);
        out.push(outcome);
        proof {
            assert(outcomes_view(out@) =~= outcomes_view(prev).push(o));
            assert(outcomes_view(prev) + (seq![o] + rest) =~= outcomes_view(out@) + rest);
        }
        pos = if end < lines.len() { end + 1 } else { end };
        done = done + 1;
    }
    proof {
        assert(blocks_outcomes(strategy, ls, pos as int, (done + 1) as nat, 0) =~= seq![]);
        assert(outcomes_view(out@) =~= blocks_outcomes(strategy, ls, start as int, 1, count as nat));
    }
    Ok(out)
}

} // verus!
