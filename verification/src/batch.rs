//! Batch mode: solving a list of puzzle lines in order.
//!
//! The list is split into contiguous chunks; each chunk is solved line by
//! line; and the chunk results, concatenated in chunk order, line up with
//! the input list index by index, whatever the chunk boundaries were.

use vstd::prelude::*;

use crate::board::Board;
use crate::board::Cell;
use crate::board::board_ok;
use crate::codec::lemma_round_trip;
use crate::codec::parse_spec;
use crate::codec::serialize_spec;
use crate::codec::well_formed_line;
use crate::solver::is_completion;
use crate::solver::lemma_completion_within;
use crate::solver::lemma_ok_within;
use crate::solver::minimal_from;
use crate::solver::solvable;

verus! {

/// An accepted input line: well formed and free of duplicate clues —
/// exactly the lines on which solving then re-validating succeeds.
pub open spec fn line_ok(input: Seq<char>) -> bool {
    well_formed_line(input) && board_ok(parse_spec(input))
}

/// `output` serializes the first valid completion, in search order, of
/// the parsed `input`.
pub open spec fn line_solution(input: Seq<char>, output: Seq<char>) -> bool {
    exists|t: Seq<Cell>|
        is_completion(parse_spec(input), t, 0) && board_ok(t) && minimal_from(
            parse_spec(input),
            t,
            0,
        ) && output == serialize_spec(t)
}

/// What one accepted line maps to: its solution when solvable; itself,
/// unchanged, when its clues are consistent but no completion exists —
/// the search then alters nothing and the re-check still passes.
pub open spec fn line_output_ok(input: Seq<char>, output: Seq<char>) -> bool {
    &&& solvable(parse_spec(input)) ==> line_solution(input, output)
    &&& !solvable(parse_spec(input)) ==> output == input
}

/// Parses one puzzle line, solves it, re-validates and serializes.
/// None exactly when the line is ill formed or fails re-validation.
pub fn solve_line(line: &str) -> (r: Option<String>)
    ensures
        r is Some <==> line_ok(line@),
        r matches Some(out) ==> line_output_ok(line@, out@),
{
    match Board::from_str(line) {
        None => None,
        Some(mut b) => {
            let ghost s = b@;
            b.solve();
            if b.is_valid() {
                proof {
                    if solvable(s) {
                        lemma_completion_within(s, b@, 0);
                        lemma_ok_within(s, b@);
                        assert(line_solution(line@, serialize_spec(b@)));
                    } else {
                        lemma_round_trip(line@);
                    }
                }
                Some(b.to_format_string())
            } else {
                proof {
                    if solvable(s) {
                        assert(board_ok(b@));
                        assert(false);
                    }
                }
                None
            }
        },
    }
}

/// The views of a list of lines.
pub open spec fn views_of(v: Seq<String>) -> Seq<Seq<char>> {
    v.map_values(|s: String| s@)
}

/// Solves the lines of one chunk in order.  None as soon as any line is
/// rejected; otherwise the whole chunk's results, index-aligned.
pub fn solve_lines(lines: &Vec<String>) -> (r: Option<Vec<String>>)
    ensures
        r is Some <==> (forall|i: int| 0 <= i < lines@.len() ==> line_ok(#[trigger] lines@[i]@)),
        r matches Some(outs) ==> outs@.len() == lines@.len() && (forall|i: int|
            0 <= i < lines@.len() ==> line_output_ok(lines@[i]@, #[trigger] outs@[i]@)),
{
    let mut outs: Vec<String> = Vec::new();
    let mut i: usize = 0;
    while i < lines.len()
        invariant
            i <= lines@.len(),
            outs@.len() == i,
            forall|t: int| 0 <= t < i ==> line_ok(#[trigger] lines@[t]@),
            forall|t: int| 0 <= t < i ==> line_output_ok(lines@[t]@, #[trigger] outs@[t]@),
        decreases lines@.len() - i,
    {
        match solve_line(lines[i].as_str()) {
            Some(out) => outs.push(out),
            None => {
                return None;
            },
        }
        i += 1;
    }
    Some(outs)
}

/// Splits the lines into contiguous chunks of `chunk_size` lines — every
/// chunk but the last exactly that long, the last one at least one line —
/// preserving order: the chunks' views concatenate back to the input's
/// views.
pub fn chunk_lines(lines: &Vec<String>, chunk_size: usize) -> (chunks: Vec<Vec<String>>)
    requires
        chunk_size >= 1,
    ensures
        chunks@.map_values(|c: Vec<String>| views_of(c@)).flatten() == views_of(lines@),
        forall|k: int| 0 <= k < chunks@.len() ==> 1 <= (#[trigger] chunks@[k])@.len() <= chunk_size,
        forall|k: int|
            0 <= k < chunks@.len() - 1 ==> (#[trigger] chunks@[k])@.len() == chunk_size,
{
    let mut chunks: Vec<Vec<String>> = Vec::new();
    let mut i: usize = 0;
    while i < lines.len()
        invariant
            chunk_size >= 1,
            i <= lines@.len(),
            chunks@.map_values(|c: Vec<String>| views_of(c@)).flatten() == views_of(
                lines@.take(i as int),
            ),
            forall|k: int|
                0 <= k < chunks@.len() ==> 1 <= (#[trigger] chunks@[k])@.len() <= chunk_size,
            forall|k: int|
                0 <= k < chunks@.len() - 1 ==> (#[trigger] chunks@[k])@.len() == chunk_size,
            chunks@.len() > 0 && i < lines@.len() ==> chunks@[chunks@.len() - 1]@.len()
                == chunk_size,
        decreases lines@.len() - i,
    {
        let ghost start = i as int;
        let ghost done = chunks@;
        let mut chunk: Vec<String> = Vec::new();
        while i < lines.len() && chunk.len() < chunk_size
            invariant
                start <= i as int <= lines@.len(),
                chunk@.len() == i - start,
                chunk@.len() <= chunk_size,
                forall|t: int| 0 <= t < i - start ==> #[trigger] chunk@[t]@ == lines@[start + t]@,
            decreases lines@.len() - i,
        {
            chunk.push(lines[i].clone());
            i += 1;
        }
        proof {
            assert(chunk@.len() >= 1);
            let f = |c: Vec<String>| views_of(c@);
            let mapped = done.map_values(f);
            assert(chunks@.push(chunk).map_values(f) =~= mapped.push(views_of(chunk@)));
            mapped.lemma_flatten_push(views_of(chunk@));
            assert(views_of(chunk@) =~= views_of(lines@.subrange(start, i as int)));
            assert(mapped.flatten() + views_of(lines@.subrange(start, i as int)) =~= views_of(
                lines@.take(i as int),
            ));
        }
        chunks.push(chunk);
    }
    proof {
        assert(lines@.take(lines@.len() as int) =~= lines@);
    }
    chunks
}

/// Batch order preservation: when the chunks concatenate to the input
/// lines and each chunk's outputs line up with that chunk, then the
/// outputs, concatenated in chunk order, line up with the whole input,
/// index by index — whatever the chunk boundaries were.
pub proof fn lemma_batch_order(
    ins: Seq<Seq<char>>,
    chunk_ins: Seq<Seq<Seq<char>>>,
    chunk_outs: Seq<Seq<Seq<char>>>,
)
    requires
        chunk_ins.flatten() == ins,
        chunk_outs.len() == chunk_ins.len(),
        forall|k: int|
            0 <= k < chunk_ins.len() ==> (#[trigger] chunk_outs[k]).len() == chunk_ins[k].len(),
        forall|k: int, j: int|
            0 <= k < chunk_ins.len() && 0 <= j < chunk_ins[k].len() ==> line_output_ok(
                #[trigger] chunk_ins[k][j],
                #[trigger] chunk_outs[k][j],
            ),
    ensures
        chunk_outs.flatten().len() == ins.len(),
        forall|i: int|
            0 <= i < ins.len() ==> line_output_ok(ins[i], #[trigger] chunk_outs.flatten()[i]),
    decreases chunk_ins.len(),
{
    if chunk_ins.len() == 0 {
        assert(chunk_ins.flatten() =~= Seq::<Seq<char>>::empty());
        assert(chunk_outs.flatten() =~= Seq::<Seq<char>>::empty());
    } else {
        let ins_rest = chunk_ins.drop_first().flatten();
        assert forall|k: int, j: int|
            0 <= k < chunk_ins.drop_first().len() && 0 <= j < chunk_ins.drop_first()[k].len()
                implies line_output_ok(
            #[trigger] chunk_ins.drop_first()[k][j],
            #[trigger] chunk_outs.drop_first()[k][j],
        ) by {
            assert(chunk_ins.drop_first()[k] == chunk_ins[k + 1]);
            assert(chunk_outs.drop_first()[k] == chunk_outs[k + 1]);
        }
        assert forall|k: int|
            0 <= k < chunk_ins.drop_first().len() implies (#[trigger] chunk_outs.drop_first()[k]).len()
                == chunk_ins.drop_first()[k].len() by {
            assert(chunk_ins.drop_first()[k] == chunk_ins[k + 1]);
            assert(chunk_outs.drop_first()[k] == chunk_outs[k + 1]);
        }
        lemma_batch_order(ins_rest, chunk_ins.drop_first(), chunk_outs.drop_first());
        let n0 = chunk_ins.first().len();
        assert(chunk_ins.flatten() == chunk_ins.first() + chunk_ins.drop_first().flatten());
        assert(chunk_outs.flatten() == chunk_outs.first() + chunk_outs.drop_first().flatten());
        assert(chunk_outs.first().len() == n0);
        assert forall|i: int| 0 <= i < ins.len() implies line_output_ok(
            ins[i],
            #[trigger] chunk_outs.flatten()[i],
        ) by {
            if i < n0 {
                assert(ins[i] == chunk_ins[0][i]);
                assert(chunk_outs.flatten()[i] == chunk_outs[0][i]);
            } else {
                assert(ins[i] == ins_rest[i - n0]);
                assert(chunk_outs.flatten()[i] == chunk_outs.drop_first().flatten()[i - n0]);
            }
        }
    }
}

} // verus!
