//! One whole invocation: parse every directive, plan, schedule, and
//! decide how the process ends.
//!
//! The surrounding binary performs the scheduled commands in order and
//! exits non-zero the moment one of them fails; on success it either
//! exits zero or, when staying resident was asked for, parks forever.

use vstd::prelude::*;

use crate::directive::{entry_of, parse_all, wf_directive, EntryV};
use crate::error::PipelineError;
use crate::plan::{
    as_map, bucket_index, build_plan, entries_view, item_index, items_wf,
    lemma_bucket_index_from, lemma_bucket_index_from_is, lemma_item_index_from,
    lemma_item_index_from_is, plan_map, plan_wf, BucketPlan, WorkPlan,
};
use crate::schedule::{all_parents_ok, cmds_view, parent_of, schedule, schedule_of, Command};

verus! {

/// The spec-level directives a raw argument list denotes.
pub open spec fn raw_entries(raws: Seq<Vec<u8>>) -> Seq<EntryV> {
    raws.map_values(|r: Vec<u8>| entry_of(r@))
}

/// Some destination recorded in the plan of `es` has no parent directory.
pub open spec fn plan_dest_bad(es: Seq<EntryV>) -> bool {
    exists|b: Seq<u8>, k: Seq<u8>|
        plan_map(es).contains_key(b) && #[trigger] plan_map(es)[b].contains_key(k) && parent_of(
            plan_map(es)[b][k],
        ) is None
}

/// With unique bucket names and keys, the destinations the plan's map
/// records are exactly the destinations of its items, so every parent
/// exists in the item list exactly when every parent exists in the map.
proof fn lemma_parents_map(bs: Seq<BucketPlan>)
    requires
        plan_wf(bs),
    ensures
        all_parents_ok(bs) <==> !(exists|b: Seq<u8>, k: Seq<u8>|
            as_map(bs).contains_key(b) && #[trigger] as_map(bs)[b].contains_key(k) && parent_of(
                as_map(bs)[b][k],
            ) is None),
{
    let m = as_map(bs);
    if all_parents_ok(bs) {
        if exists|b: Seq<u8>, k: Seq<u8>|
            m.contains_key(b) && #[trigger] m[b].contains_key(k) && parent_of(m[b][k]) is None {
            let (b, k) = choose|b: Seq<u8>, k: Seq<u8>|
                m.contains_key(b) && #[trigger] m[b].contains_key(k) && parent_of(
                    m[b][k],
                ) is None;
            lemma_bucket_index_from(bs, 0, b);
            let bi = bucket_index(bs, b);
            lemma_item_index_from(bs[bi].items@, 0, k);
            let ki = item_index(bs[bi].items@, k);
            assert(m[b][k] == bs[bi].items@[ki].dest@);
            assert(parent_of(bs[bi].items@[ki].dest@) is Some);
            assert(false);
        }
    } else {
        assert(exists|i: int, j: int|
            0 <= i < bs.len() && 0 <= j < bs[i].items@.len() && !(parent_of(
                #[trigger] bs[i].items@[j].dest@,
            ) is Some));
        let (i, j) = choose|i: int, j: int|
            0 <= i < bs.len() && 0 <= j < bs[i].items@.len() && !(parent_of(
                #[trigger] bs[i].items@[j].dest@,
            ) is Some);
        let b = bs[i].bucket@;
        let k = bs[i].items@[j].key@;
        assert forall|jj: int| 0 <= jj < i implies bs[jj].bucket@ != b by {
            assert(bs[jj].bucket@ != bs[i].bucket@);
        }
        lemma_bucket_index_from_is(bs, 0, b, i);
        assert(items_wf(bs[i].items@));
        assert forall|jj: int| 0 <= jj < j implies bs[i].items@[jj].key@ != k by {
            assert(bs[i].items@[jj].key@ != bs[i].items@[j].key@);
        }
        lemma_item_index_from_is(bs[i].items@, 0, k, j);
        assert(m.contains_key(b));
        assert(m[b].contains_key(k));
        assert(m[b][k] == bs[i].items@[j].dest@);
    }
}

/// The terminal move of one invocation.
#[derive(Debug, Clone, Copy, PartialEq, Eq, Structural)]
pub enum FinalStep {
    /// Exit reporting success.
    ExitSuccess,
    /// Exit reporting failure.
    ExitFailure,
    /// Stay resident: sleep forever instead of exiting.
    Park,
}

/// Decide how the process ends: any failure exits non-zero; success
/// exits zero, unless staying resident was asked for, in which case the
/// process parks and never exits on its own.
pub fn conclude(succeeded: bool, stay_resident: bool) -> (s: FinalStep)
    ensures
        s is Park <==> succeeded && stay_resident,
        s is ExitSuccess <==> succeeded && !stay_resident,
        s is ExitFailure <==> !succeeded,
{
    if !succeeded {
        FinalStep::ExitFailure
    } else if stay_resident {
        FinalStep::Park
    } else {
        FinalStep::ExitSuccess
    }
}

/// Parse, plan and schedule one whole run.
///
/// Every raw directive is parsed eagerly; the first malformed one
/// refuses the run, as does a planned destination without a parent
/// directory, and in either case not a single command is issued.
/// Otherwise the returned plan is exactly the fold of the directives,
/// and the commands are its schedule, all directories ahead of all
/// transfers.
pub fn build_commands(raws: &Vec<Vec<u8>>) -> (r: Result<(WorkPlan, Vec<Command>), PipelineError>)
    ensures
        match r {
            Ok(pc) => {
                &&& forall|i: int| 0 <= i < raws@.len() ==> wf_directive(#[trigger] raws@[i]@)
                &&& pc.0@ == plan_map(raw_entries(raws@))
                &&& plan_wf(pc.0.buckets@)
                &&& all_parents_ok(pc.0.buckets@)
                &&& cmds_view(pc.1@) == schedule_of(pc.0.buckets@)
                &&& forall|x: int, y: int|
                    0 <= x < pc.1@.len() && 0 <= y < pc.1@.len() && #[trigger] cmds_view(
                        pc.1@,
                    )[x] is Transfer && #[trigger] cmds_view(pc.1@)[y] is MakeDir ==> y < x
            },
            Err(e) => match e {
                PipelineError::MalformedDirective(s) => !wf_directive(s@) && exists|i: int|
                    #![trigger raws@[i]]
                    0 <= i < raws@.len() && raws@[i]@ == s@ && forall|j: int|
                        0 <= j < i ==> wf_directive(raws@[j]@),
                PipelineError::PathConversionError(d) => {
                    &&& forall|i: int| 0 <= i < raws@.len() ==> wf_directive(#[trigger] raws@[i]@)
                    &&& parent_of(d@) is None
                    &&& plan_dest_bad(raw_entries(raws@))
                },
            },
        },
{
    let entries = match parse_all(raws) {
        Ok(es) => es,
        Err(e) => {
            return Err(e);
        },
    };
    proof {
        assert(entries_view(entries@) =~= raw_entries(raws@));
    }
    let plan = build_plan(&entries);
    match schedule(&plan) {
        Ok(cmds) => Ok((plan, cmds)),
        Err(e) => {
            proof {
                lemma_parents_map(plan.buckets@);
            }
            Err(e)
        },
    }
}

} // verus!
