//! What holds of every walk: the facts that each step of the machine keeps.

use vstd::prelude::*;
use crate::config::{exceeds, CycleDetection};
use crate::entry::EntryView;
use crate::order::{
    lemma_selection_ascending, lemma_selection_visible, precedes, selection, sort_key,
    visible_count,
};
use crate::render::{child_prefix, cycle_line, entry_line, limit_line};
use crate::walk::{
    descent, directories_of, lemma_settled, settle, with_top, ActionView, Descent, EventView,
    FrameView, PendingView, Phase, WalkerView,
};

verus! {

/// Nothing is shown, and nothing is to be read, before the walk of the
/// directories has begun.
pub open spec fn orderly(walker: WalkerView) -> bool {
    walker.phase != Phase::Walk ==> walker.stack.len() == 0 && walker.pending is None
}

/// The depth limit is kept: no more directories are open, one inside the
/// other, than the limit allows, the one that is being read counted in.
pub open spec fn depth_bounded(walker: WalkerView) -> bool {
    walker.config.max_depth matches Some(limit) ==> limit != 0 ==> walker.stack.len() <= limit && (
    walker.pending is Some ==> walker.stack.len() < limit)
}

/// Unless the detection of cycles is off, the canonical path of every
/// directory that waits for its line, or has just got it, is recorded.
pub open spec fn directories_recorded(walker: WalkerView) -> bool {
    walker.config.cycle_detection != CycleDetection::Fast ==> forall|i: int|
        0 <= i < walker.stack.len() ==> directories_of(#[trigger] walker.stack[i].queue).subset_of(
            walker.visited,
        )
}

/// Whether the names of a queue ascend in byte-wise order.
pub open spec fn ascending(queue: Seq<EntryView>) -> bool {
    forall|j: int, k: int|
        0 <= j < k < queue.len() ==> precedes(
            sort_key(#[trigger] queue[j]),
            sort_key(#[trigger] queue[k]),
        )
}

/// Whether a queue holds only entries that pass the filters of the
/// configuration: none that is hidden, unless hidden entries are shown, and
/// none that is no directory where only directories are shown.
pub open spec fn filtered(queue: Seq<EntryView>, walker: WalkerView) -> bool {
    forall|k: int|
        0 <= k < queue.len() ==> crate::order::listed(#[trigger] queue[k], walker.config)
}

/// In every directory that is being shown the entries wait in ascending
/// order of their names, and each of them passes the filters.
pub open spec fn queues_in_order(walker: WalkerView) -> bool {
    forall|i: int|
        0 <= i < walker.stack.len() ==> ascending(#[trigger] walker.stack[i].queue) && filtered(
            walker.stack[i].queue,
            walker,
        )
}

/// What holds of every state that a walk reaches.
pub open spec fn consistent(walker: WalkerView) -> bool {
    &&& orderly(walker)
    &&& depth_bounded(walker)
    &&& directories_recorded(walker)
    &&& queues_in_order(walker)
}

/// The state is consistent before the first step.
pub proof fn lemma_initial_consistent(
    config: crate::config::Config,
    root: EntryView,
    ancestors: Set<Seq<char>>,
)
    ensures
        consistent(WalkerView::initial(config, root, ancestors)),
{
}

/// To announce the next entry keeps the state consistent.
proof fn lemma_announce_keeps(walker: WalkerView)
    requires
        consistent(walker),
        walker.phase == Phase::Walk,
        walker.pending is None,
    ensures
        consistent(walker.announce().0),
        walker.announce().0.visited == walker.visited,
        walker.announce().0.pending is None,
{
    lemma_settled(walker.stack);
    let stack = settle(walker.stack);
    let after = walker.announce().0;
    assert forall|i: int| 0 <= i < after.stack.len() implies #[trigger] after.stack[i].queue
        == walker.stack[i].queue by {
        assert(stack[i] == walker.stack[i]);
    }
}

/// To take the head off the queue of the top frame keeps the queues in
/// order and their directories recorded.
proof fn lemma_drop_head_keeps(walker: WalkerView, stack: Seq<FrameView>)
    requires
        consistent(walker),
        walker.phase == Phase::Walk,
        stack == settle(walker.stack),
        stack.len() > 0,
    ensures
        consistent(
            WalkerView {
                stack: with_top(
                    stack,
                    FrameView {
                        queue: stack.last().queue.drop_first(),
                        announced: false,
                        ..stack.last()
                    },
                ),
                pending: None,
                ..walker
            },
        ),
{
    lemma_settled(walker.stack);
    let top = stack.last();
    let shorter = top.queue.drop_first();
    let rest = with_top(stack, FrameView { queue: shorter, announced: false, ..top });
    let after = WalkerView { stack: rest, pending: None, ..walker };
    {
        assert(top == walker.stack[stack.len() - 1]);
        assert forall|i: int| 0 <= i < rest.len() implies ascending(#[trigger] rest[i].queue)
            && filtered(rest[i].queue, after) by {
            if i < rest.len() - 1 {
                assert(rest[i] == walker.stack[i]);
            } else {
                assert(ascending(walker.stack[i].queue));
                assert forall|j: int, k: int| 0 <= j < k < shorter.len() implies precedes(
                    sort_key(#[trigger] shorter[j]),
                    sort_key(#[trigger] shorter[k]),
                ) by {
                    assert(shorter[j] == top.queue[j + 1]);
                    assert(shorter[k] == top.queue[k + 1]);
                }
                assert forall|k: int| 0 <= k < shorter.len() implies crate::order::listed(
                    #[trigger] shorter[k],
                    after.config,
                ) by {
                    assert(shorter[k] == top.queue[k + 1]);
                }
            }
        }
        if walker.config.cycle_detection != CycleDetection::Fast {
            assert forall|i: int| 0 <= i < rest.len() implies directories_of(
                #[trigger] rest[i].queue,
            ).subset_of(after.visited) by {
                if i < rest.len() - 1 {
                    assert(rest[i] == walker.stack[i]);
                } else {
                    assert(directories_of(walker.stack[i].queue).subset_of(walker.visited));
                    assert forall|path: Seq<char>| directories_of(shorter).contains(
                        path,
                    ) implies walker.visited.contains(path) by {
                        let k = choose|k: int|
                            0 <= k < shorter.len() && shorter[k].is_directory
                                && #[trigger] shorter[k].canonical == Some(path);
                        assert(top.queue[k + 1].canonical == Some(path));
                        assert(directories_of(top.queue).contains(path));
                    }
                }
            }
        }
    }
}

/// Every step keeps the state consistent: what holds of the state before a step
/// holds of the state after it.
pub proof fn lemma_step_consistent(walker: WalkerView, event: EventView)
    requires
        consistent(walker),
    ensures
        consistent(walker.step(event).0),
{
    let after = walker.step(event).0;
    match walker.phase {
        Phase::Start => {},
        Phase::Root => {},
        Phase::Walk => match walker.pending {
            Some(pending) => match event {
                EventView::Resume => {},
                EventView::Unreadable => {},
                EventView::Listing(listing) => {
                    lemma_enter_keeps(walker, pending, listing);
                },
            },
            None => {
                lemma_settled(walker.stack);
                let stack = settle(walker.stack);
                if stack.len() > 0 && stack.last().announced {
                    let top = stack.last();
                    let rest = with_top(
                        stack,
                        FrameView { queue: top.queue.drop_first(), announced: false, ..top },
                    );
                    let dropped = WalkerView { stack: rest, pending: None, ..walker };
                    lemma_drop_head_keeps(walker, stack);
                    assert(dropped == (WalkerView { stack: rest, ..walker }));
                    match descent(
                        walker.config,
                        walker.visited,
                        top.queue[0],
                        (stack.len() - 1) as nat,
                    ) {
                        Descent::Enter => {},
                        Descent::Cycle => {},
                        Descent::Skip => {
                            lemma_announce_keeps(dropped);
                        },
                    }
                } else {
                    lemma_announce_keeps(walker);
                }
            },
        },
    }
}

/// To take a listing keeps the state consistent.
proof fn lemma_enter_keeps(walker: WalkerView, pending: PendingView, listing: Seq<EntryView>)
    requires
        consistent(walker),
        walker.phase == Phase::Walk,
        walker.pending == Some(pending),
    ensures
        consistent(walker.enter(pending, listing).0),
{
    let count = visible_count(listing, walker.config.show_hidden);
    if !exceeds(walker.config.entry_limit, count) {
        let queue = selection(listing, walker.config);
        let visited = if walker.config.cycle_detection == CycleDetection::Fast {
            walker.visited
        } else {
            walker.visited.union(directories_of(queue))
        };
        let frame = FrameView {
            queue,
            announced: false,
            prefix: pending.prefix,
            directory: pending.directory,
        };
        let entered = WalkerView {
            pending: None,
            visited,
            stack: walker.stack.push(frame),
            ..walker
        };
        assert forall|i: int| 0 <= i < entered.stack.len() implies ascending(
            #[trigger] entered.stack[i].queue,
        ) && filtered(entered.stack[i].queue, entered) by {
            if i < walker.stack.len() {
                assert(entered.stack[i] == walker.stack[i]);
            } else {
                assert forall|j: int, k: int| 0 <= j < k < queue.len() implies precedes(
                    sort_key(#[trigger] queue[j]),
                    sort_key(#[trigger] queue[k]),
                ) by {
                    lemma_selection_ascending(listing, walker.config, j, k);
                }
                assert forall|k: int| 0 <= k < queue.len() implies crate::order::listed(
                    #[trigger] queue[k],
                    walker.config,
                ) by {
                    lemma_selection_visible(listing, walker.config, k);
                }
            }
        }
        if walker.config.cycle_detection != CycleDetection::Fast {
            assert forall|i: int| 0 <= i < entered.stack.len() implies directories_of(
                #[trigger] entered.stack[i].queue,
            ).subset_of(entered.visited) by {
                if i < walker.stack.len() {
                    assert(entered.stack[i] == walker.stack[i]);
                    assert(directories_of(walker.stack[i].queue).subset_of(walker.visited));
                }
            }
        }
        assert(consistent(entered));
        lemma_announce_keeps(entered);
    }
}

/// The set of recorded directories only grows: what is recorded before a
/// step is recorded after it.
pub proof fn lemma_visited_grows(walker: WalkerView, event: EventView)
    ensures
        walker.visited.subset_of(walker.step(event).0.visited),
{
}

/// A directory with more entries than the limit allows is shown as one line
/// that names their number: nothing of it is queued, nothing is recorded,
/// and no directory is to be read.
pub proof fn lemma_over_limit_one_line(
    walker: WalkerView,
    pending: PendingView,
    listing: Seq<EntryView>,
)
    requires
        walker.phase == Phase::Walk,
        walker.pending == Some(pending),
        exceeds(walker.config.entry_limit, visible_count(listing, walker.config.show_hidden)),
    ensures
        walker.step(EventView::Listing(listing)).1 == ActionView::Print(
            limit_line(pending.prefix, visible_count(listing, walker.config.show_hidden)),
        ),
        walker.step(EventView::Listing(listing)).0 == (WalkerView { pending: None, ..walker }),
{
}

/// At the depth limit no directory is read: whenever a step asks for a
/// directory, fewer directories are open than the limit allows.
pub proof fn lemma_depth_limit_kept(walker: WalkerView, event: EventView, limit: usize)
    requires
        consistent(walker),
        walker.config.max_depth == Some(limit),
        limit != 0,
    ensures
        walker.step(event).0.stack.len() <= limit,
        walker.step(event).1 is Read ==> walker.step(event).0.stack.len() < limit,
{
    lemma_step_consistent(walker, event);
    let after = walker.step(event).0;
    match walker.phase {
        Phase::Start => {},
        Phase::Root => {},
        Phase::Walk => match walker.pending {
            Some(pending) => match event {
                EventView::Resume => {},
                EventView::Unreadable => {},
                EventView::Listing(listing) => {},
            },
            None => {},
        },
    }
}

/// With the detection of cycles on, a symlink to a directory is never
/// entered: where its line is printed and symlinks are followed, the next
/// step prints the line of the detected cycle and asks for no directory.
pub proof fn lemma_symlink_not_entered(walker: WalkerView, event: EventView)
    requires
        consistent(walker),
        walker.phase == Phase::Walk,
        walker.pending is None,
        walker.config.cycle_detection != CycleDetection::Fast,
        walker.config.follow_symlinks,
        settle(walker.stack).len() > 0,
        settle(walker.stack).last().announced,
        settle(walker.stack).last().queue[0].is_symlink,
        settle(walker.stack).last().queue[0].is_directory,
        settle(walker.stack).last().queue[0].canonical is Some,
    ensures
        walker.step(event).1 == ActionView::Print(
            cycle_line(
                child_prefix(
                    walker.config,
                    settle(walker.stack).last().prefix,
                    settle(walker.stack).last().queue.len() == 1,
                ),
            ),
        ),
        walker.step(event).0.pending is None,
{
    lemma_settled(walker.stack);
    let stack = settle(walker.stack);
    let top = stack.last();
    let head = top.queue[0];
    assert(top == walker.stack[stack.len() - 1]);
    assert(directories_of(top.queue).contains(head.canonical->0));
}

/// An entry is announced before it is dealt with: where the entry at the
/// head of the directory that is being shown has no line yet, the step
/// prints its line and keeps it at the head.
pub proof fn lemma_head_is_announced(walker: WalkerView, event: EventView)
    requires
        walker.phase == Phase::Walk,
        walker.pending is None,
        settle(walker.stack).len() > 0,
        !settle(walker.stack).last().announced,
    ensures
        walker.step(event).1 == ActionView::Print(
            entry_line(
                walker.config,
                settle(walker.stack).last().prefix,
                settle(walker.stack).last().directory,
                settle(walker.stack).last().queue[0],
                settle(walker.stack).last().queue.len() == 1,
            ),
        ),
        walker.step(event).0.stack.len() == settle(walker.stack).len(),
        walker.step(event).0.stack.last().queue == settle(walker.stack).last().queue,
        walker.step(event).0.stack.last().announced,
{
    lemma_settled(walker.stack);
}

} // verus!
