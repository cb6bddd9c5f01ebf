//! Scratch that device-authored mutation effects add to a pipeline.

use crate::arith::{max_usize, spec_max};
use crate::error::{fails_with, Error, ErrorCode, Result};
use vstd::prelude::*;

verus! {

/// One command of a mutation program, as far as its effects take lanes.
#[derive(Clone, Copy, Debug, PartialEq, Eq, Structural)]
pub enum MutationOperation {
    AddLabels { labels: usize },
    RemoveLabels { labels: usize },
    RemoveProperty,
    SetProperty,
    Other,
}

/// A mutation program, as far as its effects take scratch.
pub struct MutationProgram {
    pub commands: Vec<MutationOperation>,
    pub max_intents: usize,
}

/// Lanes of membership and value that a command needs.
pub open spec fn membership_lanes(operation: MutationOperation) -> int {
    match operation {
        MutationOperation::AddLabels { labels } => labels as int,
        MutationOperation::RemoveLabels { labels } => labels as int,
        MutationOperation::RemoveProperty => 1,
        _ => 0,
    }
}

/// Lanes of the first commands.
pub open spec fn static_lanes(commands: Seq<MutationOperation>, count: int) -> int
    decreases count,
{
    if count <= 0 {
        0
    } else {
        static_lanes(commands, count - 1) + membership_lanes(commands[count - 1])
    }
}

/// How many of the first commands set a property.
pub open spec fn typed_commands(commands: Seq<MutationOperation>, count: int) -> int
    decreases count,
{
    if count <= 0 {
        0
    } else {
        typed_commands(commands, count - 1) + if commands[count - 1]
            == MutationOperation::SetProperty {
            1int
        } else {
            0
        }
    }
}

/// Static lanes with their own effect lane.
pub open spec fn effect_lanes(lanes: int) -> int {
    if lanes == 0 {
        0
    } else {
        lanes + 1
    }
}

/// Bytes of the effects: canonical cells for each row, one word for each intent, sixteen words for each
/// command, and a header.
pub open spec fn effect_bytes(program: MutationProgram, max_output_rows: int) -> int {
    let count = program.commands@.len() as int;
    let lanes = spec_max(
        effect_lanes(static_lanes(program.commands@, count)),
        3 * typed_commands(program.commands@, count),
    );
    (max_output_rows * lanes + program.max_intents + 16 * count) * 8 + 64
}

/// Every count on the way can be held.
pub open spec fn effect_fits(program: MutationProgram, max_output_rows: int) -> bool {
    let count = program.commands@.len() as int;
    &&& effect_lanes(static_lanes(program.commands@, count)) <= usize::MAX
    &&& 3 * typed_commands(program.commands@, count) <= usize::MAX
    &&& effect_bytes(program, max_output_rows) <= usize::MAX
}

proof fn lemma_lanes_grow(commands: Seq<MutationOperation>, low: int, high: int)
    requires
        0 <= low <= high <= commands.len(),
    ensures
        0 <= static_lanes(commands, low) <= static_lanes(commands, high),
        0 <= typed_commands(commands, low) <= low,
    decreases high,
{
    if low < high {
        lemma_lanes_grow(commands, low, high - 1);
    } else if low > 0 {
        lemma_lanes_grow(commands, low - 1, low - 1);
    }
}

fn overflow<T>() -> (result: Result<T>)
    ensures
        fails_with(
            result,
            ErrorCode::ResultBudgetExceeded,
            "Metal mutation effect scratch accounting overflow"@,
        ),
{
    Err(
        Error::new(
            ErrorCode::ResultBudgetExceeded,
            "Metal mutation effect scratch accounting overflow",
        ),
    )
}

/// Words times eight and the header, where they fit.
fn words_to_bytes(canonical: usize, intents: usize, receipts: usize) -> (bytes: Option<usize>)
    ensures
        match bytes {
            Some(bytes) => bytes == (canonical + intents + receipts) * 8 + 64,
            None => (canonical + intents + receipts) * 8 + 64 > usize::MAX,
        },
{
    let words: usize = match canonical.checked_add(intents) {
        Some(words) => words,
        None => {
            return None;
        },
    };
    let words: usize = match words.checked_add(receipts) {
        Some(words) => words,
        None => {
            return None;
        },
    };
    match words.checked_mul(8) {
        Some(bytes) => bytes.checked_add(64),
        None => None,
    }
}

/// Peak scratch that mutation effects add. Ordinary reservations account for the packet before them.
pub fn metal_mutation_effect_scratch_bytes(
    program: Option<&MutationProgram>,
    max_output_rows: usize,
) -> (result: Result<usize>)
    ensures
        match program {
            Some(program) => if effect_fits(*program, max_output_rows as int) {
                result == Ok::<usize, Error>(
                    effect_bytes(*program, max_output_rows as int) as usize,
                )
            } else {
                fails_with(
                    result,
                    ErrorCode::ResultBudgetExceeded,
                    "Metal mutation effect scratch accounting overflow"@,
                )
            },
            None => result == Ok::<usize, Error>(0),
        },
{
    let plan = match program {
        Some(plan) => plan,
        None => {
            return Ok(0);
        },
    };
    let count: usize = plan.commands.len();
    let mut lanes: usize = 0;
    let mut typed: usize = 0;
    for index in 0..count
        invariant
            program == Some(plan),
            count == plan.commands@.len(),
            lanes == static_lanes(plan.commands@, index as int),
            typed == typed_commands(plan.commands@, index as int),
            typed <= index,
    {
        proof {
            lemma_lanes_grow(plan.commands@, index + 1, count as int);
        }
        let more: usize = match plan.commands[index] {
            MutationOperation::AddLabels { labels } => labels,
            MutationOperation::RemoveLabels { labels } => labels,
            MutationOperation::RemoveProperty => 1,
            MutationOperation::SetProperty => {
                typed = typed + 1;
                0
            },
            MutationOperation::Other => 0,
        };
        match lanes.checked_add(more) {
            Some(sum) => {
                lanes = sum;
            },
            None => {
                return overflow();
            },
        }
    }
    let static_effect: usize = if lanes == 0 {
        0
    } else {
        match lanes.checked_add(1) {
            Some(lanes) => lanes,
            None => {
                return overflow();
            },
        }
    };
    let typed_current: usize = match typed.checked_mul(3) {
        Some(lanes) => lanes,
        None => {
            return overflow();
        },
    };
    let wide: usize = max_usize(static_effect, typed_current);
    proof {
        let cells = max_output_rows * wide;
        assert(cells >= 0) by (nonlinear_arith)
            requires
                cells == max_output_rows * wide,
                max_output_rows >= 0,
                wide >= 0,
        ;
        assert(effect_bytes(*plan, max_output_rows as int) == (cells + plan.max_intents + 16
            * count) * 8 + 64);
    }
    let canonical: usize = match max_output_rows.checked_mul(wide) {
        Some(words) => words,
        None => {
            return overflow();
        },
    };
    let receipts: usize = match count.checked_mul(16) {
        Some(words) => words,
        None => {
            return overflow();
        },
    };
    match words_to_bytes(canonical, plan.max_intents, receipts) {
        Some(bytes) => Ok(bytes),
        None => overflow(),
    }
}

/// Adding and removing labels takes a lane for each label, removing a property one, and nothing else any.
/// A value that is set takes three lanes of its own.
pub proof fn law_lanes_of_commands(
    commands: Seq<MutationOperation>,
    next: MutationOperation,
)
    ensures
        ({
            let count = commands.len() as int;
            let more = commands.push(next);
            &&& static_lanes(more, count + 1) == static_lanes(commands, count) + match next {
                MutationOperation::AddLabels { labels } => labels as int,
                MutationOperation::RemoveLabels { labels } => labels as int,
                MutationOperation::RemoveProperty => 1,
                MutationOperation::SetProperty => 0,
                MutationOperation::Other => 0,
            }
            &&& typed_commands(more, count + 1) == typed_commands(commands, count) + match next {
                MutationOperation::SetProperty => 1int,
                _ => 0,
            }
        }),
{
    lemma_same_lanes(commands, commands.push(next), commands.len() as int);
}

proof fn lemma_same_lanes(left: Seq<MutationOperation>, right: Seq<MutationOperation>, count: int)
    requires
        0 <= count <= left.len(),
        left.len() <= right.len(),
        forall|i: int| 0 <= i < left.len() ==> left[i] == #[trigger] right[i],
    ensures
        static_lanes(left, count) == static_lanes(right, count),
        typed_commands(left, count) == typed_commands(right, count),
    decreases count,
{
    if count > 0 {
        lemma_same_lanes(left, right, count - 1);
        assert(left[count - 1] == right[count - 1]);
    }
}

/// Every row more takes eight bytes for each lane: as many lanes as members are looked up, and one more,
/// or three for each value that is set, whichever is more.
pub proof fn law_effects_grow_with_the_rows(program: MutationProgram, rows: int)
    ensures
        ({
            let count = program.commands@.len() as int;
            let members = static_lanes(program.commands@, count);
            let looked_up = if members == 0 {
                0
            } else {
                members + 1
            };
            let values = 3 * typed_commands(program.commands@, count);
            &&& effect_bytes(program, 0) == program.max_intents * 8 + count * 128 + 64
            &&& effect_bytes(program, rows + 1) - effect_bytes(program, rows) == 8 * (if looked_up
                >= values {
                looked_up
            } else {
                values
            })
        }),
{
    let count = program.commands@.len() as int;
    let lanes = spec_max(
        effect_lanes(static_lanes(program.commands@, count)),
        3 * typed_commands(program.commands@, count),
    );
    assert((rows + 1) * lanes == rows * lanes + lanes) by (nonlinear_arith);
    assert(0 * lanes == 0) by (nonlinear_arith);
}

} // verus!
