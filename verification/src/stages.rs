//! The run stages: the intervals that a stage overrides and the moments at
//! which output is due.

use grass_io::RunConfig;
use vstd::prelude::*;

verus! {

/// The run stages as `grass_io` parsed them.
#[verifier::external_type_specification]
#[verifier::external_body]
pub struct ExRunConfig(RunConfig);

/// What the library reads of one stage: the integers among its overrides, by
/// key, and whether it saves at its end.
pub struct Stage {
    pub integers: Map<Seq<char>, i64>,
    pub save_at_end: bool,
}

/// The stages that a run configuration holds, in order.
pub uninterp spec fn stages(config: RunConfig) -> Seq<Stage>;

/// The stage in force at `index`: past the end, the last one.
pub open spec fn stage_at(config: RunConfig, index: int) -> Stage {
    let n = stages(config).len();
    if index < n {
        stages(config)[index]
    } else {
        stages(config)[n - 1]
    }
}

/// `RunConfig::num_stages`: the number of stages.
pub assume_specification[ RunConfig::num_stages ](config: &RunConfig) -> (r: usize)
    ensures
        r == stages(*config).len(),
;

/// `RunConfig::current_stage`, then `get` on the overrides of that stage and
/// `as_integer` on the value: the integer under `key` among the overrides of
/// the stage in force, where there is one. `current_stage` panics where there
/// is no stage at all.
#[verifier::external_body]
fn stage_integer(config: &RunConfig, index: usize, key: &str) -> (r: Option<i64>)
    requires
        stages(*config).len() > 0,
    ensures
        r == (if stage_at(*config, index as int).integers.contains_key(key@) {
            Some(stage_at(*config, index as int).integers[key@])
        } else {
            None
        }),
{
    match config.current_stage(index).overrides.get(key) {
        Some(value) => value.as_integer(),
        None => None,
    }
}

/// `RunConfig::current_stage`, then the stage's flag: whether the stage in
/// force saves at its end. `current_stage` panics where there is no stage at
/// all.
#[verifier::external_body]
fn stage_saves(config: &RunConfig, index: usize) -> (r: bool)
    requires
        stages(*config).len() > 0,
    ensures
        r == stage_at(*config, index as int).save_at_end,
{
    config.current_stage(index).save_at_end
}

/// The interval in force at stage `index`: what the stage gives under `key`,
/// else `default`.
pub open spec fn interval_at(config: RunConfig, index: int, key: Seq<char>, default: usize) -> usize {
    if stage_at(config, index).integers.contains_key(key) {
        stage_at(config, index).integers[key] as usize
    } else {
        default
    }
}

/// The interval that an override gives, else the default.
pub fn override_or(given: Option<i64>, default: usize) -> (r: usize)
    ensures
        r == (match given {
            Some(i) => i as usize,
            None => default,
        }),
{
    match given {
        Some(i) => i as usize,
        None => default,
    }
}

/// The interval in force at stage `index`.
pub fn stage_interval(config: &RunConfig, index: usize, key: &str, default: usize) -> (r: usize)
    requires
        stages(*config).len() > 0,
    ensures
        r == interval_at(*config, index as int, key@, default),
{
    override_or(stage_integer(config, index, key), default)
}

/// A step is a multiple of an interval exactly if some whole number of intervals leads
/// to it.
pub proof fn multiples_are_whole_intervals(step: int, interval: int)
    requires
        step >= 0,
        interval > 0,
    ensures
        step % interval == 0 <==> exists|k: int| #[trigger] (k * interval) == step,
{
    if step % interval == 0 {
        vstd::arithmetic::div_mod::lemma_fundamental_div_mod(step, interval);
        let k: int = step / interval;
        assert(k * interval == interval * k) by (nonlinear_arith);
        assert(k * interval == step);
    }
    if exists|k: int| #[trigger] (k * interval) == step {
        let k: int = choose|k: int| #[trigger] (k * interval) == step;
        vstd::arithmetic::div_mod::lemma_fundamental_div_mod_converse(step, interval, k, 0);
    }
}

/// Whether periodic output is due at `step`: an interval of zero turns it off.
pub fn output_due(step: usize, interval: usize) -> (r: bool)
    ensures
        r == (interval != 0 && step % interval == 0),
        interval == 0 ==> !r,
        interval > 0 ==> (r <==> exists|k: int| #[trigger] (k * interval) == step),
{
    proof {
        if interval > 0 {
            multiples_are_whole_intervals(step as int, interval as int);
        }
    }
    interval != 0 && step % interval == 0
}

/// Whether the step that is about to be counted ends a stage that saves at its
/// end. `remaining` and `count` are the steps that each stage was given and has
/// counted; a stage that was given none is skipped and saves nothing.
pub open spec fn saves_now(
    config: RunConfig,
    index: int,
    remaining: Seq<u32>,
    count: Seq<u32>,
    advancing: bool,
) -> bool {
    &&& index < stages(config).len()
    &&& stages(config)[index].save_at_end
    &&& remaining[index] != 0
    &&& count[index] + 1 == remaining[index] || advancing
}

/// Decides whether a stage's final state is saved at this step.
pub fn stage_end_save(
    config: &RunConfig,
    index: usize,
    remaining: &Vec<u32>,
    count: &Vec<u32>,
    advancing: bool,
) -> (r: bool)
    requires
        index < stages(*config).len() && stages(*config)[index as int].save_at_end ==> {
            &&& index < remaining@.len()
            &&& remaining@[index as int] != 0 ==> index < count@.len() && count@[index as int]
                < u32::MAX
        },
    ensures
        r == saves_now(*config, index as int, remaining@, count@, advancing),
{
    if index >= config.num_stages() {
        return false;
    }
    if !stage_saves(config, index) {
        return false;
    }
    if remaining[index] == 0 {
        return false;
    }
    count[index] + 1 == remaining[index] || advancing
}

/// A stage that saves at its end saves at the one step that completes the steps it was
/// given, or where the run leaves it before.
pub proof fn a_stage_saves_at_its_last_step(
    config: RunConfig,
    index: int,
    remaining: Seq<u32>,
    count: Seq<u32>,
    left: int,
)
    requires
        0 <= index < stages(config).len(),
        index < remaining.len() && index < count.len(),
        stages(config)[index].save_at_end,
        remaining[index] > 0,
        left == remaining[index] - count[index],
    ensures
        saves_now(config, index, remaining, count, false) <==> left == 1,
        saves_now(config, index, remaining, count, true),
{
}

/// An override counts for the stage that gives it, and without one the default does; a
/// run that is past its last stage goes on with that one.
pub proof fn intervals_are_those_of_the_stage(
    config: RunConfig,
    index: int,
    key: Seq<char>,
    default: usize,
)
    requires
        0 <= index,
        stages(config).len() > 0,
    ensures
        ({
            let last = stages(config).len() - 1;
            let at = if index <= last {
                index
            } else {
                last
            };
            let given = stages(config)[at].integers;
            &&& !given.contains_key(key) ==> interval_at(config, index, key, default) == default
            &&& given.contains_key(key) && 0 <= given[key] <= usize::MAX ==> interval_at(
                config,
                index,
                key,
                default,
            ) == given[key]
        }),
{
}

} // verus!
