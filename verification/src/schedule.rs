//! Laying a work plan out as an ordered command list.
//!
//! Every directory-creation command comes before every transfer, so a
//! directory that cannot be created stops the run before any object is
//! fetched.  Within the transfer part the plan is walked bucket by
//! bucket: one client connection, then that bucket's fetches.

use vstd::prelude::*;

use crate::bytes::{clone_bytes, last_index_of, lemma_last_index_of, rfind_byte, subvec};
use crate::directive::SLASH_BYTE;
use crate::error::PipelineError;
use crate::plan::{BucketPlan, WorkItem, WorkPlan};

verus! {

/// Parent directory of a destination path: the part before the last `/`.
/// A path with no `/` lives in the current directory (empty parent,
/// nothing to create); the root `/` and the empty path have none.
pub open spec fn parent_of(p: Seq<u8>) -> Option<Seq<u8>> {
    if p.len() == 0 {
        None
    } else {
        let i = last_index_of(p, SLASH_BYTE);
        if i < 0 {
            Some(Seq::empty())
        } else if i == 0 {
            if p.len() == 1 {
                None
            } else {
                Some(seq![SLASH_BYTE])
            }
        } else {
            Some(p.subrange(0, i))
        }
    }
}

/// Parent directory, as executable code.
pub fn parent_dir(dest: &Vec<u8>) -> (r: Option<Vec<u8>>)
    ensures
        match r {
            Some(d) => parent_of(dest@) == Some(d@),
            None => parent_of(dest@) is None,
        },
{
    if dest.len() == 0 {
        return None;
    }
    proof {
        lemma_last_index_of(dest@, SLASH_BYTE);
    }
    match rfind_byte(dest, SLASH_BYTE) {
        None => {
            let v: Vec<u8> = Vec::new();
            proof {
                assert(v@ =~= Seq::<u8>::empty());
            }
            Some(v)
        },
        Some(i) => {
            if i == 0 {
                if dest.len() == 1 {
                    None
                } else {
                    let mut v: Vec<u8> = Vec::new();
                    v.push(SLASH_BYTE);
                    proof {
                        assert(v@ =~= seq![SLASH_BYTE]);
                    }
                    Some(v)
                }
            } else {
                Some(subvec(dest, 0, i))
            }
        },
    }
}

/// One spec-level step of a run.
pub enum Cmd {
    MakeDir { dir: Seq<u8> },
    Connect { bucket: Seq<u8> },
    Transfer { bucket: Seq<u8>, key: Seq<u8>, dest: Seq<u8> },
}

/// One step of a run: create a directory, open a client for a bucket, or
/// fetch one object to its destination.
#[derive(Debug, Clone, PartialEq, Eq)]
pub enum Command {
    MakeDir { dir: Vec<u8> },
    Connect { bucket: Vec<u8> },
    Transfer { bucket: Vec<u8>, key: Vec<u8>, dest: Vec<u8> },
}

impl View for Command {
    type V = Cmd;

    open spec fn view(&self) -> Cmd {
        match self {
            Command::MakeDir { dir } => Cmd::MakeDir { dir: dir@ },
            Command::Connect { bucket } => Cmd::Connect { bucket: bucket@ },
            Command::Transfer { bucket, key, dest } => Cmd::Transfer {
                bucket: bucket@,
                key: key@,
                dest: dest@,
            },
        }
    }
}

/// The views of a command list.
pub open spec fn cmds_view(s: Seq<Command>) -> Seq<Cmd> {
    s.map_values(|c: Command| c@)
}

proof fn lemma_cmds_view_push(s: Seq<Command>, c: Command)
    ensures
        cmds_view(s.push(c)) == cmds_view(s).push(c@),
{
    assert(cmds_view(s.push(c)) =~= cmds_view(s).push(c@));
}

/// The directory command one item asks for: its destination's parent,
/// when there is one to create.
pub open spec fn dir_cmds_of_item(it: WorkItem) -> Seq<Cmd> {
    match parent_of(it.dest@) {
        Some(d) => if d.len() > 0 {
            seq![Cmd::MakeDir { dir: d }]
        } else {
            Seq::empty()
        },
        None => Seq::empty(),
    }
}

/// The directory commands one bucket's items ask for, in item order.
pub open spec fn dir_cmds_of_items(items: Seq<WorkItem>) -> Seq<Cmd>
    decreases items.len(),
{
    if items.len() == 0 {
        Seq::empty()
    } else {
        dir_cmds_of_items(items.drop_last()) + dir_cmds_of_item(items.last())
    }
}

/// All directory commands of the plan, in bucket order.
pub open spec fn dir_cmds(bs: Seq<BucketPlan>) -> Seq<Cmd>
    decreases bs.len(),
{
    if bs.len() == 0 {
        Seq::empty()
    } else {
        dir_cmds(bs.drop_last()) + dir_cmds_of_items(bs.last().items@)
    }
}

/// The transfers of one bucket, in item order.
pub open spec fn transfer_cmds_of_items(b: Seq<u8>, items: Seq<WorkItem>) -> Seq<Cmd>
    decreases items.len(),
{
    if items.len() == 0 {
        Seq::empty()
    } else {
        transfer_cmds_of_items(b, items.drop_last()) + seq![
            Cmd::Transfer { bucket: b, key: items.last().key@, dest: items.last().dest@ },
        ]
    }
}

/// Per bucket: one connection, then that bucket's transfers.
pub open spec fn transfer_cmds(bs: Seq<BucketPlan>) -> Seq<Cmd>
    decreases bs.len(),
{
    if bs.len() == 0 {
        Seq::empty()
    } else {
        transfer_cmds(bs.drop_last()) + seq![Cmd::Connect { bucket: bs.last().bucket@ }]
            + transfer_cmds_of_items(bs.last().bucket@, bs.last().items@)
    }
}

/// The whole run: every directory first, then bucket by bucket a
/// connection and its transfers.
pub open spec fn schedule_of(bs: Seq<BucketPlan>) -> Seq<Cmd> {
    dir_cmds(bs) + transfer_cmds(bs)
}

/// Every destination in the plan has a parent directory.
pub open spec fn all_parents_ok(bs: Seq<BucketPlan>) -> bool {
    forall|i: int, j: int|
        0 <= i < bs.len() && 0 <= j < bs[i].items@.len() ==> parent_of(
            #[trigger] bs[i].items@[j].dest@,
        ) is Some
}

proof fn lemma_dir_cmds_of_items_shape(items: Seq<WorkItem>)
    ensures
        forall|t: int|
            0 <= t < dir_cmds_of_items(items).len() ==> #[trigger] dir_cmds_of_items(
                items,
            )[t] is MakeDir,
    decreases items.len(),
{
    if items.len() > 0 {
        lemma_dir_cmds_of_items_shape(items.drop_last());
    }
}

proof fn lemma_dir_cmds_shape(bs: Seq<BucketPlan>)
    ensures
        forall|t: int| 0 <= t < dir_cmds(bs).len() ==> #[trigger] dir_cmds(bs)[t] is MakeDir,
    decreases bs.len(),
{
    if bs.len() > 0 {
        lemma_dir_cmds_shape(bs.drop_last());
        lemma_dir_cmds_of_items_shape(bs.last().items@);
    }
}

proof fn lemma_transfer_cmds_of_items_shape(b: Seq<u8>, items: Seq<WorkItem>)
    ensures
        forall|t: int|
            0 <= t < transfer_cmds_of_items(b, items).len() ==> !(#[trigger] transfer_cmds_of_items(
                b,
                items,
            )[t] is MakeDir),
    decreases items.len(),
{
    if items.len() > 0 {
        lemma_transfer_cmds_of_items_shape(b, items.drop_last());
    }
}

proof fn lemma_transfer_cmds_shape(bs: Seq<BucketPlan>)
    ensures
        forall|t: int|
            0 <= t < transfer_cmds(bs).len() ==> !(#[trigger] transfer_cmds(bs)[t] is MakeDir),
    decreases bs.len(),
{
    if bs.len() > 0 {
        lemma_transfer_cmds_shape(bs.drop_last());
        lemma_transfer_cmds_of_items_shape(bs.last().bucket@, bs.last().items@);
    }
}

/// Lay the plan out as commands: first every needed directory, then per
/// bucket one connection and its transfers, in plan order.
///
/// A destination without a parent directory refuses the whole plan, so
/// that no command at all is issued for any item (fail fast, all or
/// nothing); otherwise the command list is exactly the plan's schedule,
/// and every transfer comes after every directory command.
pub fn schedule(plan: &WorkPlan) -> (r: Result<Vec<Command>, PipelineError>)
    ensures
        match r {
            Ok(cmds) => {
                &&& all_parents_ok(plan.buckets@)
                &&& cmds_view(cmds@) == schedule_of(plan.buckets@)
                &&& forall|x: int, y: int|
                    0 <= x < cmds@.len() && 0 <= y < cmds@.len() && #[trigger] cmds_view(
                        cmds@,
                    )[x] is Transfer && #[trigger] cmds_view(cmds@)[y] is MakeDir ==> y < x
            },
            Err(e) => {
                &&& !all_parents_ok(plan.buckets@)
                &&& e matches PipelineError::PathConversionError(d) && parent_of(d@) is None
                    && exists|i: int, j: int|
                    0 <= i < plan.buckets@.len() && 0 <= j < plan.buckets@[i].items@.len()
                        && #[trigger] plan.buckets@[i].items@[j].dest@ == d@
            },
        },
{
    let ghost bs = plan.buckets@;
    let mut cmds: Vec<Command> = Vec::new();
    proof {
        assert(bs.take(0) =~= Seq::<BucketPlan>::empty());
        assert(cmds_view(cmds@) =~= dir_cmds(bs.take(0)));
    }
    let mut bi: usize = 0;
    while bi < plan.buckets.len()
        invariant
            bi <= plan.buckets@.len(),
            bs == plan.buckets@,
            cmds_view(cmds@) == dir_cmds(bs.take(bi as int)),
            forall|i: int, j: int|
                0 <= i < bi && 0 <= j < bs[i].items@.len() ==> parent_of(
                    #[trigger] bs[i].items@[j].dest@,
                ) is Some,
        decreases plan.buckets@.len() - bi,
    {
        let bp = &plan.buckets[bi];
        let items_len = bp.items.len();
        let mut ii: usize = 0;
        while ii < items_len
            invariant
                bi < plan.buckets@.len(),
                bs == plan.buckets@,
                bp == bs[bi as int],
                items_len == bs[bi as int].items@.len(),
                ii <= items_len,
                cmds_view(cmds@) == dir_cmds(bs.take(bi as int)) + dir_cmds_of_items(
                    bs[bi as int].items@.take(ii as int),
                ),
                forall|i: int, j: int|
                    0 <= i < bi && 0 <= j < bs[i].items@.len() ==> parent_of(
                        #[trigger] bs[i].items@[j].dest@,
                    ) is Some,
                forall|j: int|
                    0 <= j < ii ==> parent_of(#[trigger] bs[bi as int].items@[j].dest@) is Some,
            decreases items_len - ii,
        {
            let ghost pre = cmds@;
            let ghost it = bs[bi as int].items@[ii as int];
            let dest = &bp.items[ii].dest;
            match parent_dir(dest) {
                None => {
                    proof {
                        assert(!all_parents_ok(bs)) by {
                            if all_parents_ok(bs) {
                                assert(parent_of(bs[bi as int].items@[ii as int].dest@) is Some);
                            }
                        }
                    }
                    return Err(PipelineError::PathConversionError(clone_bytes(dest)));
                },
                Some(d) => {
                    if d.len() > 0 {
                        cmds.push(Command::MakeDir { dir: d });
                        proof {
                            lemma_cmds_view_push(pre, Command::MakeDir { dir: d });
                        }
                    }
                },
            }
            proof {
                assert(bs[bi as int].items@.take(ii + 1).drop_last() =~= bs[
                    bi as int
                ].items@.take(ii as int));
                assert(bs[bi as int].items@.take(ii + 1).last() == it);
                assert(cmds_view(cmds@) =~= dir_cmds(bs.take(bi as int)) + dir_cmds_of_items(
                    bs[bi as int].items@.take(ii + 1),
                ));
            }
            ii = ii + 1;
        }
        proof {
            assert(bs.take(bi + 1).drop_last() =~= bs.take(bi as int));
            assert(bs.take(bi + 1).last() == bs[bi as int]);
            assert(bs[bi as int].items@.take(items_len as int) =~= bs[bi as int].items@);
            assert(cmds_view(cmds@) =~= dir_cmds(bs.take(bi + 1)));
        }
        bi = bi + 1;
    }
    proof {
        assert(bs.take(bs.len() as int) =~= bs);
        assert(transfer_cmds(bs.take(0)) =~= Seq::<Cmd>::empty());
        assert(cmds_view(cmds@) =~= dir_cmds(bs) + transfer_cmds(bs.take(0)));
    }
    let mut bj: usize = 0;
    while bj < plan.buckets.len()
        invariant
            bj <= plan.buckets@.len(),
            bs == plan.buckets@,
            cmds_view(cmds@) == dir_cmds(bs) + transfer_cmds(bs.take(bj as int)),
            all_parents_ok(bs),
        decreases plan.buckets@.len() - bj,
    {
        let bp = &plan.buckets[bj];
        let items_len = bp.items.len();
        let ghost pre0 = cmds@;
        let c0 = Command::Connect { bucket: clone_bytes(&bp.bucket) };
        cmds.push(c0);
        proof {
            lemma_cmds_view_push(pre0, c0);
            assert(c0@ == Cmd::Connect { bucket: bs[bj as int].bucket@ });
            assert(transfer_cmds_of_items(bs[bj as int].bucket@, bs[bj as int].items@.take(0))
                =~= Seq::<Cmd>::empty());
            assert(cmds_view(cmds@) =~= dir_cmds(bs) + transfer_cmds(bs.take(bj as int)) + seq![
                Cmd::Connect { bucket: bs[bj as int].bucket@ },
            ] + transfer_cmds_of_items(bs[bj as int].bucket@, bs[bj as int].items@.take(0)));
        }
        let mut ii: usize = 0;
        while ii < items_len
            invariant
                bj < plan.buckets@.len(),
                bs == plan.buckets@,
                bp == bs[bj as int],
                items_len == bs[bj as int].items@.len(),
                ii <= items_len,
                cmds_view(cmds@) == dir_cmds(bs) + transfer_cmds(bs.take(bj as int)) + seq![
                    Cmd::Connect { bucket: bs[bj as int].bucket@ },
                ] + transfer_cmds_of_items(
                    bs[bj as int].bucket@,
                    bs[bj as int].items@.take(ii as int),
                ),
                all_parents_ok(bs),
            decreases items_len - ii,
        {
            let ghost pre = cmds@;
            let ghost it = bs[bj as int].items@[ii as int];
            let item = &bp.items[ii];
            let c = Command::Transfer {
                bucket: clone_bytes(&bp.bucket),
                key: clone_bytes(&item.key),
                dest: clone_bytes(&item.dest),
            };
            proof {
                assert(c@ == Cmd::Transfer { bucket: bs[bj as int].bucket@, key: it.key@, dest: it.dest@ });
            }
            cmds.push(c);
            proof {
                lemma_cmds_view_push(pre, c);
                assert(bs[bj as int].items@.take(ii + 1).drop_last() =~= bs[
                    bj as int
                ].items@.take(ii as int));
                assert(bs[bj as int].items@.take(ii + 1).last() == it);
                assert(cmds_view(cmds@) =~= dir_cmds(bs) + transfer_cmds(bs.take(bj as int))
                    + seq![Cmd::Connect { bucket: bs[bj as int].bucket@ }]
                    + transfer_cmds_of_items(
                    bs[bj as int].bucket@,
                    bs[bj as int].items@.take(ii + 1),
                ));
            }
            ii = ii + 1;
        }
        proof {
            assert(bs.take(bj + 1).drop_last() =~= bs.take(bj as int));
            assert(bs.take(bj + 1).last() == bs[bj as int]);
            assert(bs[bj as int].items@.take(items_len as int) =~= bs[bj as int].items@);
            assert(cmds_view(cmds@) =~= dir_cmds(bs) + transfer_cmds(bs.take(bj + 1)));
        }
        bj = bj + 1;
    }
    proof {
        assert(bs.take(bs.len() as int) =~= bs);
        assert(cmds_view(cmds@) == schedule_of(bs));
        lemma_dir_cmds_shape(bs);
        lemma_transfer_cmds_shape(bs);
        let vs = cmds_view(cmds@);
        let dl = dir_cmds(bs).len() as int;
        assert forall|x: int, y: int|
            0 <= x < cmds@.len() && 0 <= y < cmds@.len() && #[trigger] vs[x] is Transfer
                && #[trigger] vs[y] is MakeDir implies y < x by {
            assert(vs.len() == cmds@.len());
            if x < dl {
                assert(vs[x] == dir_cmds(bs)[x]);
            }
            if y >= dl {
                assert(vs[y] == transfer_cmds(bs)[y - dl]);
            }
        }
    }
    Ok(cmds)
}

} // verus!
