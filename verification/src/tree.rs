//! The tree that a walk draws, described from the root down, and the proof
//! that a walk which is driven over a filesystem prints exactly that tree.

use vstd::prelude::*;
use crate::config::{exceeds, Config, CycleDetection};
use crate::entry::EntryView;
use crate::order::{
    arrangement, distinct_names, is_pseudo, lemma_count_order_free, lemma_selection_order_free,
    same_entries, selection, slot, sort_key, visible_count,
};
use crate::render::{
    child_prefix, cycle_line, entry_line, limit_line, not_directory_line, root_line,
    unreadable_line,
};
use crate::walk::{
    descent, directories_of, seeded, settle, ActionView, Descent, EventView, FrameView,
    PendingView, Phase, WalkerView,
};

verus! {

/// A filesystem as a walk sees it: the listing of the directory at each
/// path, or nothing where the directory cannot be read.
pub type Listings = spec_fn(Seq<char>) -> Option<Seq<EntryView>>;

/// What showing a part of the tree comes to.
pub struct Shown {
    /// The lines, from top to bottom.
    pub lines: Seq<Seq<char>>,
    /// The directories that are recorded afterwards.
    pub visited: Set<Seq<char>>,
    /// The number of steps that a walk takes over it.
    pub steps: nat,
    /// Whether the part was shown in full: no directory lay deeper than the
    /// nesting that was allowed for.
    pub complete: bool,
}

/// The content of the directory that is to be read, as it is shown below the
/// line of its entry: one line where it cannot be read or holds too many
/// entries, else its entries in the order of their names.
///
/// `depth` is the depth of the directory, `nesting` the number of levels
/// below it that are allowed for.
pub open spec fn show_directory(
    listings: Listings,
    config: Config,
    visited: Set<Seq<char>>,
    pending: PendingView,
    depth: nat,
    nesting: nat,
) -> Shown
    decreases nesting, 1nat, 0nat,
{
    match listings(pending.path) {
        None => Shown {
            lines: seq![unreadable_line(pending.prefix)],
            visited,
            steps: 1,
            complete: true,
        },
        Some(listing) => {
            let count = visible_count(listing, config.show_hidden);
            if exceeds(config.entry_limit, count) {
                Shown {
                    lines: seq![limit_line(pending.prefix, count)],
                    visited,
                    steps: 1,
                    complete: true,
                }
            } else {
                let queue = selection(listing, config);
                let recorded = if config.cycle_detection == CycleDetection::Fast {
                    visited
                } else {
                    visited.union(directories_of(queue))
                };
                show_entries(
                    listings,
                    config,
                    recorded,
                    queue,
                    pending.prefix,
                    pending.directory,
                    depth,
                    nesting,
                )
            }
        },
    }
}

/// The entries of a directory as they are shown: for each in turn its line,
/// then what stands for its content, then the entries behind it.
pub open spec fn show_entries(
    listings: Listings,
    config: Config,
    visited: Set<Seq<char>>,
    queue: Seq<EntryView>,
    prefix: Seq<char>,
    directory: Option<Seq<char>>,
    depth: nat,
    nesting: nat,
) -> Shown
    decreases nesting, 0nat, queue.len(),
{
    if queue.len() == 0 {
        Shown { lines: Seq::empty(), visited, steps: 0, complete: true }
    } else {
        let head = queue[0];
        let last = queue.len() == 1;
        let below = child_prefix(config, prefix, last);
        let inner = show_content(listings, config, visited, head, below, depth, nesting);
        let rest = show_entries(
            listings,
            config,
            inner.visited,
            queue.drop_first(),
            prefix,
            directory,
            depth,
            nesting,
        );
        Shown {
            lines: seq![entry_line(config, prefix, directory, head, last)] + inner.lines
                + rest.lines,
            visited: rest.visited,
            steps: 1 + inner.steps + rest.steps,
            complete: inner.complete && rest.complete,
        }
    }
}

/// What stands for the content of an entry below its line: the content of
/// its directory where that is entered, one line where a cycle is detected,
/// else nothing.
pub open spec fn show_content(
    listings: Listings,
    config: Config,
    visited: Set<Seq<char>>,
    head: EntryView,
    below: Seq<char>,
    depth: nat,
    nesting: nat,
) -> Shown
    decreases nesting, 0nat, 0nat,
{
    match descent(config, visited, head, depth) {
        Descent::Skip => Shown { lines: Seq::empty(), visited, steps: 0, complete: true },
        Descent::Cycle => Shown {
            lines: seq![cycle_line(below)],
            visited,
            steps: 1,
            complete: true,
        },
        Descent::Enter => if nesting == 0 {
            Shown { lines: Seq::empty(), visited, steps: 0, complete: false }
        } else {
            let inside = show_directory(
                listings,
                config,
                visited,
                PendingView { path: head.path, prefix: below, directory: head.canonical },
                depth + 1,
                (nesting - 1) as nat,
            );
            Shown { steps: inside.steps + 1, ..inside }
        },
    }
}

/// The whole tree: the line of the root, and below it the content of the
/// root, or one line where the root is no directory.
pub open spec fn show_tree(
    listings: Listings,
    config: Config,
    root: EntryView,
    ancestors: Set<Seq<char>>,
    nesting: nat,
) -> Shown {
    if root.is_directory {
        let inside = show_directory(
            listings,
            config,
            seeded(config, root, ancestors),
            PendingView { path: root.path, prefix: Seq::empty(), directory: root.canonical },
            0,
            nesting,
        );
        Shown {
            lines: seq![root_line(config, root)] + inside.lines,
            steps: inside.steps + 2,
            ..inside
        }
    } else {
        Shown {
            lines: seq![root_line(config, root), not_directory_line()],
            visited: Set::empty(),
            steps: 2,
            complete: true,
        }
    }
}

/// A walk in the hands of its driver: the machine, the event that it is
/// handed next, and the lines printed so far.
pub struct Driven {
    pub walker: WalkerView,
    pub event: EventView,
    pub lines: Seq<Seq<char>>,
}

/// What the driver hands back after an action: the listing of the directory
/// that was to be read, or the word that it cannot be read; nothing else.
pub open spec fn answer(listings: Listings, action: ActionView) -> EventView {
    match action {
        ActionView::Read(path) => match listings(path) {
            Some(listing) => EventView::Listing(listing),
            None => EventView::Unreadable,
        },
        _ => EventView::Resume,
    }
}

/// The lines that an action prints.
pub open spec fn printed(action: ActionView) -> Seq<Seq<char>> {
    match action {
        ActionView::Print(line) => seq![line],
        _ => Seq::empty(),
    }
}

/// One turn of the driver: the machine takes its step, and the driver
/// carries out the action.
pub open spec fn drive_once(listings: Listings, driven: Driven) -> Driven {
    let (walker, action) = driven.walker.step(driven.event);
    Driven { walker, event: answer(listings, action), lines: driven.lines + printed(action) }
}

/// `turns` turns of the driver.
pub open spec fn drive(listings: Listings, driven: Driven, turns: nat) -> Driven
    decreases turns,
{
    if turns == 0 {
        driven
    } else {
        drive(listings, drive_once(listings, driven), (turns - 1) as nat)
    }
}

/// A walk at its start, in the hands of its driver.
pub open spec fn start(config: Config, root: EntryView, ancestors: Set<Seq<char>>) -> Driven {
    Driven {
        walker: WalkerView::initial(config, root, ancestors),
        event: EventView::Resume,
        lines: Seq::empty(),
    }
}

/// Turns add up.
pub proof fn lemma_drive_add(listings: Listings, driven: Driven, first: nat, second: nat)
    ensures
        drive(listings, driven, first + second) == drive(
            listings,
            drive(listings, driven, first),
            second,
        ),
    decreases first,
{
    if first > 0 {
        lemma_drive_add(listings, drive_once(listings, driven), (first - 1) as nat, second);
    }
}

/// Whether two driven walks have printed the same and take the same step
/// next.
pub open spec fn same_next(a: Driven, b: Driven) -> bool {
    a.lines == b.lines && a.walker.step(a.event) == b.walker.step(b.event)
}

/// Two driven walks that take the same step next stay together.
pub proof fn lemma_drive_together(listings: Listings, a: Driven, b: Driven, turns: nat)
    requires
        same_next(a, b),
    ensures
        same_next(drive(listings, a, turns), drive(listings, b, turns)),
{
    if turns > 0 {
        assert(drive_once(listings, a) == drive_once(listings, b));
    }
}


/// Whether no frame of a stack has the line of its current entry printed.
pub open spec fn unannounced(stack: Seq<FrameView>) -> bool {
    forall|i: int| 0 <= i < stack.len() ==> !(#[trigger] stack[i]).announced
}

/// A stack of frames of which none is announced settles to one of the same
/// kind.
proof fn lemma_settle_unannounced(stack: Seq<FrameView>)
    requires
        unannounced(stack),
    ensures
        unannounced(settle(stack)),
    decreases stack.len(),
{
    if !(stack.len() == 0 || stack.last().queue.len() > 0) {
        assert forall|i: int| 0 <= i < stack.drop_last().len() implies !(
        #[trigger] stack.drop_last()[i]).announced by {
            assert(stack.drop_last()[i] == stack[i]);
        }
        lemma_settle_unannounced(stack.drop_last());
    }
}

/// A frame with nothing left to show, on top of the stack, makes no
/// difference to the next step.
proof fn lemma_exhausted_top_ignored(
    walker: WalkerView,
    event: EventView,
    base: Seq<FrameView>,
    frame: FrameView,
)
    requires
        walker.phase == Phase::Walk,
        walker.pending is None,
        walker.stack == base.push(frame),
        frame.queue.len() == 0,
    ensures
        walker.step(event) == (WalkerView { stack: base, ..walker }).step(event),
{
    assert(base.push(frame).drop_last() =~= base);
    assert(settle(base.push(frame)) == settle(base));
}

/// Where the current entry has no line yet, the step prints its line.
proof fn lemma_step_prints_head(
    walker: WalkerView,
    event: EventView,
    base: Seq<FrameView>,
    frame: FrameView,
)
    requires
        walker.phase == Phase::Walk,
        walker.pending is None,
        walker.stack == base.push(frame),
        frame.queue.len() > 0,
        !frame.announced,
    ensures
        walker.step(event) == (
            WalkerView { stack: base.push(FrameView { announced: true, ..frame }), ..walker },
            ActionView::Print(
                entry_line(
                    walker.config,
                    frame.prefix,
                    frame.directory,
                    frame.queue[0],
                    frame.queue.len() == 1,
                ),
            ),
        ),
{
    let stack = base.push(frame);
    assert(settle(stack) == stack);
    assert(stack.drop_last() =~= base);
}

/// Where the line of the current entry is printed, the step deals with the
/// content of the entry.
proof fn lemma_step_decides(
    walker: WalkerView,
    event: EventView,
    base: Seq<FrameView>,
    frame: FrameView,
)
    requires
        walker.phase == Phase::Walk,
        walker.pending is None,
        walker.stack == base.push(frame),
        frame.queue.len() > 0,
        frame.announced,
        unannounced(base),
    ensures
        ({
            let head = frame.queue[0];
            let below = child_prefix(walker.config, frame.prefix, frame.queue.len() == 1);
            let rest = base.push(
                FrameView { queue: frame.queue.drop_first(), announced: false, ..frame },
            );
            match descent(walker.config, walker.visited, head, base.len()) {
                Descent::Enter => walker.step(event) == (
                    WalkerView {
                        stack: rest,
                        pending: Some(
                            PendingView {
                                path: head.path,
                                prefix: below,
                                directory: head.canonical,
                            },
                        ),
                        ..walker
                    },
                    ActionView::Read(head.path),
                ),
                Descent::Cycle => walker.step(event) == (
                    WalkerView { stack: rest, ..walker },
                    ActionView::Print(cycle_line(below)),
                ),
                Descent::Skip => walker.step(event) == (WalkerView { stack: rest, ..walker }).step(
                    event,
                ),
            }
        }),
{
    let stack = base.push(frame);
    assert(settle(stack) == stack);
    assert(stack.drop_last() =~= base);
    let rest = base.push(FrameView { queue: frame.queue.drop_first(), announced: false, ..frame });
    let skipped = WalkerView { stack: rest, ..walker };
    assert forall|i: int| 0 <= i < rest.len() implies !(#[trigger] rest[i]).announced by {
        if i < base.len() {
            assert(rest[i] == base[i]);
        }
    }
    lemma_settle_unannounced(rest);
    crate::walk::lemma_settled(rest);
    assert(skipped.step(event) == skipped.announce());
}

/// To take the listing of a directory is to go on from the state in which
/// its frame lies on the stack.
proof fn lemma_step_enters(
    walker: WalkerView,
    pending: PendingView,
    listing: Seq<EntryView>,
    event: EventView,
)
    requires
        walker.phase == Phase::Walk,
        walker.pending == Some(pending),
        unannounced(walker.stack),
        !exceeds(walker.config.entry_limit, visible_count(listing, walker.config.show_hidden)),
    ensures
        ({
            let queue = selection(listing, walker.config);
            let frame = FrameView {
                queue,
                announced: false,
                prefix: pending.prefix,
                directory: pending.directory,
            };
            let visited = if walker.config.cycle_detection == CycleDetection::Fast {
                walker.visited
            } else {
                walker.visited.union(directories_of(queue))
            };
            walker.step(EventView::Listing(listing)) == (WalkerView {
                pending: None,
                visited,
                stack: walker.stack.push(frame),
                ..walker
            }).step(event)
        }),
{
    let queue = selection(listing, walker.config);
    let frame = FrameView {
        queue,
        announced: false,
        prefix: pending.prefix,
        directory: pending.directory,
    };
    let visited = if walker.config.cycle_detection == CycleDetection::Fast {
        walker.visited
    } else {
        walker.visited.union(directories_of(queue))
    };
    let entered = WalkerView {
        pending: None,
        visited,
        stack: walker.stack.push(frame),
        ..walker
    };
    assert forall|i: int| 0 <= i < entered.stack.len() implies !(
    #[trigger] entered.stack[i]).announced by {
        if i < walker.stack.len() {
            assert(entered.stack[i] == walker.stack[i]);
        }
    }
    lemma_settle_unannounced(entered.stack);
    crate::walk::lemma_settled(entered.stack);
    assert(entered.step(event) == entered.announce());
}

/// The state of a walk in which a directory is shown to its end: the state
/// in which it began, with the directories recorded that the showing
/// recorded, and with nothing left in the frame of the directory.
pub open spec fn shown_state(
    walker: WalkerView,
    base: Seq<FrameView>,
    frame: FrameView,
    visited: Set<Seq<char>>,
) -> WalkerView {
    WalkerView {
        visited,
        stack: base.push(FrameView { queue: Seq::empty(), ..frame }),
        ..walker
    }
}

/// A walk shows the entries of a directory as `show_entries` describes them.
///
/// Where the frame of the directory lies on top of the stack and no line of
/// it is printed, the walk prints, in the steps that `show_entries` counts,
/// the lines that it gives, and is then where nothing is left of the
/// directory: its next step is the step of that state.
pub proof fn lemma_entries_shown(
    listings: Listings,
    driven: Driven,
    base: Seq<FrameView>,
    frame: FrameView,
    nesting: nat,
)
    requires
        driven.walker.phase == Phase::Walk,
        driven.walker.pending is None,
        driven.walker.stack == base.push(frame),
        !frame.announced,
        unannounced(base),
        show_entries(
            listings,
            driven.walker.config,
            driven.walker.visited,
            frame.queue,
            frame.prefix,
            frame.directory,
            base.len(),
            nesting,
        ).complete,
    ensures
        ({
            let shown = show_entries(
                listings,
                driven.walker.config,
                driven.walker.visited,
                frame.queue,
                frame.prefix,
                frame.directory,
                base.len(),
                nesting,
            );
            let after = drive(listings, driven, shown.steps);
            &&& after.lines == driven.lines + shown.lines
            &&& after.walker.step(after.event) == shown_state(
                driven.walker,
                base,
                frame,
                shown.visited,
            ).step(EventView::Resume)
        }),
    decreases nesting, frame.queue.len(),
{
    let walker = driven.walker;
    let config = walker.config;
    let queue = frame.queue;
    let shown = show_entries(
        listings,
        config,
        walker.visited,
        queue,
        frame.prefix,
        frame.directory,
        base.len(),
        nesting,
    );
    if queue.len() == 0 {
        assert(queue =~= Seq::<EntryView>::empty());
        assert(shown_state(walker, base, frame, shown.visited) == walker);
        assert(driven.lines + shown.lines =~= driven.lines);
    } else {
        let head = queue[0];
        let last = queue.len() == 1;
        let line = entry_line(config, frame.prefix, frame.directory, head, last);
        let below = child_prefix(config, frame.prefix, last);
        let inner = show_content(listings, config, walker.visited, head, below, base.len(), nesting);
        let rest_frame = FrameView { queue: queue.drop_first(), announced: false, ..frame };
        let rest_stack = base.push(rest_frame);
        let rest = show_entries(
            listings,
            config,
            inner.visited,
            queue.drop_first(),
            frame.prefix,
            frame.directory,
            base.len(),
            nesting,
        );
        // The first step prints the line of the head.
        lemma_step_prints_head(walker, driven.event, base, frame);
        let announced = WalkerView {
            stack: base.push(FrameView { announced: true, ..frame }),
            ..walker
        };
        let first = drive_once(listings, driven);
        assert(first.walker == announced);
        assert(first.event == EventView::Resume);
        assert(first.lines == driven.lines + seq![line]);
        // Then the content of the head is dealt with.
        lemma_step_decides(announced, EventView::Resume, base, FrameView { announced: true, ..frame });
        let cleared = Driven {
            walker: WalkerView { visited: inner.visited, stack: rest_stack, ..walker },
            event: EventView::Resume,
            lines: driven.lines + seq![line] + inner.lines,
        };
        let middle = drive(listings, first, inner.steps);
        assert(same_next(middle, cleared)) by {
            lemma_content_shown(listings, first, walker, base, frame, nesting);
        }
        // And then the entries behind the head.
        lemma_entries_shown(listings, cleared, base, rest_frame, nesting);
        lemma_drive_together(listings, middle, cleared, rest.steps);
        assert(drive(listings, driven, shown.steps) == drive(listings, middle, rest.steps)) by {
            assert(shown.steps == 1 + (inner.steps + rest.steps));
            assert(drive(listings, driven, shown.steps) == drive(
                listings,
                first,
                inner.steps + rest.steps,
            ));
            lemma_drive_add(listings, first, inner.steps, rest.steps);
        }
        assert(FrameView { queue: Seq::<EntryView>::empty(), ..rest_frame } == (FrameView {
            queue: Seq::<EntryView>::empty(),
            ..frame
        }));
        assert(shown_state(cleared.walker, base, rest_frame, rest.visited) == shown_state(
            walker,
            base,
            frame,
            shown.visited,
        ));
        assert(cleared.lines + rest.lines =~= driven.lines + shown.lines);
    }
}

/// A walk shows what stands for the content of an entry as `show_content`
/// describes it: after the line of the entry is printed, the walk prints the
/// lines of its content and is then where the entry is dealt with.
proof fn lemma_content_shown(
    listings: Listings,
    first: Driven,
    walker: WalkerView,
    base: Seq<FrameView>,
    frame: FrameView,
    nesting: nat,
)
    requires
        walker.phase == Phase::Walk,
        walker.pending is None,
        walker.stack == base.push(frame),
        frame.queue.len() > 0,
        !frame.announced,
        unannounced(base),
        first.walker == (WalkerView {
            stack: base.push(FrameView { announced: true, ..frame }),
            ..walker
        }),
        first.event == EventView::Resume,
        show_content(
            listings,
            walker.config,
            walker.visited,
            frame.queue[0],
            child_prefix(walker.config, frame.prefix, frame.queue.len() == 1),
            base.len(),
            nesting,
        ).complete,
    ensures
        ({
            let inner = show_content(
                listings,
                walker.config,
                walker.visited,
                frame.queue[0],
                child_prefix(walker.config, frame.prefix, frame.queue.len() == 1),
                base.len(),
                nesting,
            );
            let rest_stack = base.push(
                FrameView { queue: frame.queue.drop_first(), announced: false, ..frame },
            );
            same_next(
                drive(listings, first, inner.steps),
                Driven {
                    walker: WalkerView { visited: inner.visited, stack: rest_stack, ..walker },
                    event: EventView::Resume,
                    lines: first.lines + inner.lines,
                },
            )
        }),
    decreases nesting, 0nat,
{
    let config = walker.config;
    let head = frame.queue[0];
    let below = child_prefix(config, frame.prefix, frame.queue.len() == 1);
    let inner = show_content(listings, config, walker.visited, head, below, base.len(), nesting);
    let rest_frame = FrameView { queue: frame.queue.drop_first(), announced: false, ..frame };
    let rest_stack = base.push(rest_frame);
    let cleared = Driven {
        walker: WalkerView { visited: inner.visited, stack: rest_stack, ..walker },
        event: EventView::Resume,
        lines: first.lines + inner.lines,
    };
    lemma_step_decides(first.walker, EventView::Resume, base, FrameView { announced: true, ..frame });
    match descent(config, walker.visited, head, base.len()) {
        Descent::Skip => {
            assert(first.lines + inner.lines =~= first.lines);
            assert(cleared.walker == (WalkerView { stack: rest_stack, ..first.walker }));
        },
        Descent::Cycle => {
            let second = drive_once(listings, first);
            assert(drive(listings, first, 1) == drive(listings, second, 0));
            assert(second.walker == cleared.walker);
            assert(second == cleared);
        },
        Descent::Enter => {
            let pending = PendingView { path: head.path, prefix: below, directory: head.canonical };
            let inside = show_directory(
                listings,
                config,
                walker.visited,
                pending,
                base.len() + 1,
                (nesting - 1) as nat,
            );
            let waiting = WalkerView { stack: rest_stack, pending: Some(pending), ..walker };
            let second = drive_once(listings, first);
            assert(second.walker == waiting);
            assert(second.lines =~= first.lines);
            assert(drive(listings, first, inner.steps) == drive(listings, second, inside.steps));
            assert forall|i: int| 0 <= i < rest_stack.len() implies !(
            #[trigger] rest_stack[i]).announced by {
                if i < base.len() {
                    assert(rest_stack[i] == base[i]);
                }
            }
            match listings(head.path) {
                None => {
                    let third = drive_once(listings, second);
                    assert(drive(listings, second, 1) == drive(listings, third, 0));
                    assert(third.walker == cleared.walker);
                    assert(third == cleared);
                },
                Some(listing) => {
                    let count = visible_count(listing, config.show_hidden);
                    if exceeds(config.entry_limit, count) {
                        let third = drive_once(listings, second);
                        assert(drive(listings, second, 1) == drive(listings, third, 0));
                        assert(third.walker == cleared.walker);
                        assert(third == cleared);
                    } else {
                        let queue = selection(listing, config);
                        let child = FrameView {
                            queue,
                            announced: false,
                            prefix: pending.prefix,
                            directory: pending.directory,
                        };
                        let recorded = if config.cycle_detection == CycleDetection::Fast {
                            walker.visited
                        } else {
                            walker.visited.union(directories_of(queue))
                        };
                        let entered = Driven {
                            walker: WalkerView {
                                pending: None,
                                visited: recorded,
                                stack: rest_stack.push(child),
                                ..waiting
                            },
                            event: EventView::Resume,
                            lines: second.lines,
                        };
                        lemma_step_enters(waiting, pending, listing, EventView::Resume);
                        assert(same_next(second, entered));
                        lemma_drive_together(listings, second, entered, inside.steps);
                        lemma_entries_shown(
                            listings,
                            entered,
                            rest_stack,
                            child,
                            (nesting - 1) as nat,
                        );
                        let emptied = shown_state(
                            entered.walker,
                            rest_stack,
                            child,
                            inside.visited,
                        );
                        lemma_exhausted_top_ignored(
                            emptied,
                            EventView::Resume,
                            rest_stack,
                            FrameView { queue: Seq::empty(), ..child },
                        );
                        assert((WalkerView { stack: rest_stack, ..emptied }) == cleared.walker);
                    }
                },
            }
        },
    }
}


/// A walk that is driven over a filesystem prints the tree: in the steps
/// that `show_tree` counts it prints the lines that `show_tree` gives, and
/// its next step ends the walk.
pub proof fn lemma_walk_prints_tree(
    listings: Listings,
    config: Config,
    root: EntryView,
    ancestors: Set<Seq<char>>,
    nesting: nat,
)
    requires
        show_tree(listings, config, root, ancestors, nesting).complete,
    ensures
        ({
            let shown = show_tree(listings, config, root, ancestors, nesting);
            let after = drive(listings, start(config, root, ancestors), shown.steps);
            &&& after.lines == shown.lines
            &&& after.walker.step(after.event).1 == ActionView::Finished
        }),
{
    let shown = show_tree(listings, config, root, ancestors, nesting);
    let begun = start(config, root, ancestors);
    let first = drive_once(listings, begun);
    let second = drive_once(listings, first);
    assert(first.lines =~= seq![root_line(config, root)]);
    assert(drive(listings, begun, shown.steps) == drive(
        listings,
        second,
        (shown.steps - 2) as nat,
    )) by {
        assert(drive(listings, begun, shown.steps) == drive(
            listings,
            first,
            (shown.steps - 1) as nat,
        ));
    }
    let nothing = Seq::<FrameView>::empty();
    assert(settle(nothing) == nothing);
    if !root.is_directory {
        assert(second.lines =~= shown.lines);
        assert(drive(listings, second, 0) == second);
        assert(second.walker.stack == nothing);
    } else {
        let seeds = seeded(config, root, ancestors);
        let pending = PendingView {
            path: root.path,
            prefix: Seq::empty(),
            directory: root.canonical,
        };
        let inside = show_directory(listings, config, seeds, pending, 0, nesting);
        assert(Set::<Seq<char>>::empty().union(seeds) =~= seeds);
        let waiting = second.walker;
        assert(waiting.visited == seeds);
        assert(waiting.pending == Some(pending));
        assert(second.lines =~= first.lines);
        match listings(root.path) {
            None => {
                let third = drive_once(listings, second);
                assert(drive(listings, second, 1) == drive(listings, third, 0));
                assert(third.lines =~= shown.lines);
                assert(third.walker.stack == nothing);
            },
            Some(listing) => {
                let count = visible_count(listing, config.show_hidden);
                if exceeds(config.entry_limit, count) {
                    let third = drive_once(listings, second);
                    assert(drive(listings, second, 1) == drive(listings, third, 0));
                    assert(third.lines =~= shown.lines);
                    assert(third.walker.stack == nothing);
                } else {
                    let queue = selection(listing, config);
                    let child = FrameView {
                        queue,
                        announced: false,
                        prefix: pending.prefix,
                        directory: pending.directory,
                    };
                    let recorded = if config.cycle_detection == CycleDetection::Fast {
                        seeds
                    } else {
                        seeds.union(directories_of(queue))
                    };
                    let entered = Driven {
                        walker: WalkerView {
                            pending: None,
                            visited: recorded,
                            stack: nothing.push(child),
                            ..waiting
                        },
                        event: EventView::Resume,
                        lines: second.lines,
                    };
                    lemma_step_enters(waiting, pending, listing, EventView::Resume);
                    assert(same_next(second, entered));
                    lemma_drive_together(listings, second, entered, inside.steps);
                    lemma_entries_shown(listings, entered, nothing, child, nesting);
                    let emptied = shown_state(entered.walker, nothing, child, inside.visited);
                    lemma_exhausted_top_ignored(
                        emptied,
                        EventView::Resume,
                        nothing,
                        FrameView { queue: Seq::empty(), ..child },
                    );
                    assert(second.lines + inside.lines =~= shown.lines);
                }
            },
        }
    }
}

/// Whether two listings tell the same of a directory: they are equal, or
/// they hold the same entries in another order, neither with two equal
/// names.
pub open spec fn same_content(a: Seq<EntryView>, b: Seq<EntryView>) -> bool {
    a == b || (distinct_names(a) && distinct_names(b) && same_entries(a, b))
}

/// Whether two events tell the same.
pub open spec fn alike(a: EventView, b: EventView) -> bool {
    match a {
        EventView::Listing(x) => b matches EventView::Listing(y) && same_content(x, y),
        _ => a == b,
    }
}

/// Whether two filesystems tell the same of every directory.
pub open spec fn same_listings(first: Listings, second: Listings) -> bool {
    forall|path: Seq<char>|
        match #[trigger] first(path) {
            Some(x) => second(path) matches Some(y) && same_content(x, y),
            None => second(path) is None,
        }
}

/// A step does not depend on the order in which a directory hands out its
/// entries: events that tell the same get the same answer.
pub proof fn lemma_step_order_free(walker: WalkerView, a: EventView, b: EventView)
    requires
        alike(a, b),
    ensures
        walker.step(a) == walker.step(b),
{
    if let EventView::Listing(x) = a {
        if let EventView::Listing(y) = b {
            if x != y {
                lemma_selection_order_free(x, y, walker.config);
                lemma_count_order_free(x, y, walker.config.show_hidden);
            }
        }
    }
}

/// A walk repeats itself: over two filesystems that tell the same of every
/// directory, be it in another order, two walks from the same state print
/// the same lines, turn by turn.
pub proof fn lemma_walk_repeats(
    first: Listings,
    second: Listings,
    a: Driven,
    b: Driven,
    turns: nat,
)
    requires
        same_listings(first, second),
        a.walker == b.walker,
        a.lines == b.lines,
        alike(a.event, b.event),
    ensures
        drive(first, a, turns).walker == drive(second, b, turns).walker,
        drive(first, a, turns).lines == drive(second, b, turns).lines,
        alike(drive(first, a, turns).event, drive(second, b, turns).event),
    decreases turns,
{
    if turns > 0 {
        lemma_step_order_free(a.walker, a.event, b.event);
        let action = a.walker.step(a.event).1;
        if let ActionView::Read(path) = action {
            assert(first(path) is Some ==> second(path) is Some);
        }
        lemma_walk_repeats(
            first,
            second,
            drive_once(first, a),
            drive_once(second, b),
            (turns - 1) as nat,
        );
    }
}

/// At the depth limit nothing of a directory is shown: below the line of an
/// entry whose directory lies at the limit stands at most the line of a
/// detected cycle.
pub proof fn lemma_nothing_below_depth_limit(
    listings: Listings,
    config: Config,
    visited: Set<Seq<char>>,
    head: EntryView,
    below: Seq<char>,
    depth: nat,
    nesting: nat,
)
    requires
        crate::config::reaches(config.max_depth, depth + 1),
    ensures
        ({
            let content = show_content(listings, config, visited, head, below, depth, nesting);
            &&& content.lines == Seq::<Seq<char>>::empty() || content.lines == seq![
                cycle_line(below),
            ]
            &&& content.visited == visited
            &&& content.complete
        }),
{
}

/// A directory with more entries than the limit allows is shown as one line
/// that names their number, and nothing of it is recorded.
pub proof fn lemma_large_directory_one_line(
    listings: Listings,
    config: Config,
    visited: Set<Seq<char>>,
    pending: PendingView,
    depth: nat,
    nesting: nat,
)
    requires
        listings(pending.path) matches Some(listing) && exceeds(
            config.entry_limit,
            visible_count(listing, config.show_hidden),
        ),
    ensures
        show_directory(listings, config, visited, pending, depth, nesting).lines == seq![
            limit_line(
                pending.prefix,
                visible_count(listings(pending.path)->0, config.show_hidden),
            ),
        ],
        show_directory(listings, config, visited, pending, depth, nesting).visited == visited,
{
}

/// Showing a part of the tree forgets no directory: what is recorded before
/// is recorded after.
pub proof fn lemma_shown_keeps_visited(
    listings: Listings,
    config: Config,
    visited: Set<Seq<char>>,
    queue: Seq<EntryView>,
    prefix: Seq<char>,
    directory: Option<Seq<char>>,
    depth: nat,
    nesting: nat,
)
    ensures
        visited.subset_of(
            show_entries(listings, config, visited, queue, prefix, directory, depth, nesting).visited,
        ),
    decreases nesting, queue.len(),
{
    if queue.len() > 0 {
        let head = queue[0];
        let below = child_prefix(config, prefix, queue.len() == 1);
        let inner = show_content(listings, config, visited, head, below, depth, nesting);
        if descent(config, visited, head, depth) == Descent::Enter && nesting > 0 {
            let pending = PendingView { path: head.path, prefix: below, directory: head.canonical };
            if let Some(listing) = listings(head.path) {
                if !exceeds(config.entry_limit, visible_count(listing, config.show_hidden)) {
                    let inside = selection(listing, config);
                    let recorded = if config.cycle_detection == CycleDetection::Fast {
                        visited
                    } else {
                        visited.union(directories_of(inside))
                    };
                    lemma_shown_keeps_visited(
                        listings,
                        config,
                        recorded,
                        inside,
                        below,
                        head.canonical,
                        depth + 1,
                        (nesting - 1) as nat,
                    );
                }
            }
        }
        lemma_shown_keeps_visited(
            listings,
            config,
            inner.visited,
            queue.drop_first(),
            prefix,
            directory,
            depth,
            nesting,
        );
    }
}

/// With the detection of cycles on, no symlink is entered: where the
/// directories among the entries of a directory are recorded, as they are
/// when the directory is shown, each followed symlink to a directory among
/// them gets the line of a detected cycle for its content.
pub proof fn lemma_symlinks_shown_as_cycles(
    listings: Listings,
    config: Config,
    visited: Set<Seq<char>>,
    head: EntryView,
    below: Seq<char>,
    depth: nat,
    nesting: nat,
)
    requires
        config.cycle_detection != CycleDetection::Fast,
        config.follow_symlinks,
        head.is_symlink,
        head.is_directory,
        head.canonical matches Some(resolved) && visited.contains(resolved),
    ensures
        show_content(listings, config, visited, head, below, depth, nesting) == (Shown {
            lines: seq![cycle_line(below)],
            visited,
            steps: 1,
            complete: true,
        }),
{
}


/// Every entry that waits in a directory gets its line: the connector of
/// the last entry is the elbow, that of any other the tee.
pub proof fn lemma_every_entry_gets_its_line(
    listings: Listings,
    config: Config,
    visited: Set<Seq<char>>,
    queue: Seq<EntryView>,
    prefix: Seq<char>,
    directory: Option<Seq<char>>,
    depth: nat,
    nesting: nat,
    k: int,
)
    requires
        0 <= k < queue.len(),
    ensures
        show_entries(listings, config, visited, queue, prefix, directory, depth, nesting).lines.contains(
            entry_line(config, prefix, directory, queue[k], k == queue.len() - 1),
        ),
    decreases queue.len(),
{
    let shown = show_entries(listings, config, visited, queue, prefix, directory, depth, nesting);
    let head = queue[0];
    let last = queue.len() == 1;
    let below = child_prefix(config, prefix, last);
    let inner = show_content(listings, config, visited, head, below, depth, nesting);
    let behind = queue.drop_first();
    let rest = show_entries(
        listings,
        config,
        inner.visited,
        behind,
        prefix,
        directory,
        depth,
        nesting,
    );
    if k == 0 {
        assert(shown.lines[0] == entry_line(config, prefix, directory, head, last));
    } else {
        lemma_every_entry_gets_its_line(
            listings,
            config,
            inner.visited,
            behind,
            prefix,
            directory,
            depth,
            nesting,
            k - 1,
        );
        let line = entry_line(config, prefix, directory, queue[k], k == queue.len() - 1);
        assert(behind[k - 1] == queue[k]);
        let at = choose|at: int| 0 <= at < rest.lines.len() && rest.lines[at] == line;
        assert(shown.lines[1 + inner.lines.len() + at] == line);
    }
}

/// The listing of a directory is shown in full: where the directory is read
/// and holds no more entries than the limit allows, every entry of it that
/// passes the filters has its line among the lines of the directory.
pub proof fn lemma_listing_shown_in_full(
    listings: Listings,
    config: Config,
    visited: Set<Seq<char>>,
    pending: PendingView,
    depth: nat,
    nesting: nat,
    entry: EntryView,
)
    requires
        listings(pending.path) matches Some(listing) && listing.contains(entry) && !exceeds(
            config.entry_limit,
            visible_count(listing, config.show_hidden),
        ),
        crate::order::listed(entry, config),
    ensures
        exists|last: bool|
            show_directory(listings, config, visited, pending, depth, nesting).lines.contains(
                #[trigger] entry_line(config, pending.prefix, pending.directory, entry, last),
            ),
{
    let listing = listings(pending.path)->0;
    let queue = selection(listing, config);
    crate::order::lemma_selection_exact(listing, config, entry);
    let k = choose|k: int| 0 <= k < queue.len() && queue[k] == entry;
    let recorded = if config.cycle_detection == CycleDetection::Fast {
        visited
    } else {
        visited.union(directories_of(queue))
    };
    lemma_every_entry_gets_its_line(
        listings,
        config,
        recorded,
        queue,
        pending.prefix,
        pending.directory,
        depth,
        nesting,
        k,
    );
    let last = k == queue.len() - 1;
    assert(show_directory(listings, config, visited, pending, depth, nesting).lines.contains(
        entry_line(config, pending.prefix, pending.directory, entry, last),
    ));
}


/// Whether a walk that detects cycles may enter the directory of an entry:
/// the entry is a directory and no symlink that resolves. A symlink that
/// resolves to a directory is recorded with its listing, and so is not
/// entered.
pub open spec fn enterable(entry: EntryView) -> bool {
    entry.is_directory && !(entry.is_symlink && entry.canonical is Some)
}

/// The entry at `index` of the listing at `path`.
pub open spec fn entry_at(listings: Listings, path: Seq<char>, index: int) -> EntryView {
    listings(path)->0[index]
}

/// Whether a filesystem is finite in depth: each directory has a rank, and
/// every directory that can be entered from it has a lower one.
pub open spec fn ranked(listings: Listings, rank: spec_fn(Seq<char>) -> nat) -> bool {
    forall|path: Seq<char>, index: int|
        listings(path) is Some && 0 <= index < listings(path)->0.len() && enterable(
            #[trigger] entry_at(listings, path, index),
        ) ==> rank(entry_at(listings, path, index).path) < rank(path)
}

/// Whether every entry of a queue that can be entered has a rank below
/// `bound`.
pub open spec fn ranks_below(
    queue: Seq<EntryView>,
    rank: spec_fn(Seq<char>) -> nat,
    bound: nat,
) -> bool {
    forall|k: int|
        0 <= k < queue.len() && enterable(#[trigger] queue[k]) ==> rank(queue[k].path) < bound
}

/// The entries that a directory shows rank below the directory.
proof fn lemma_selection_ranks(
    listings: Listings,
    rank: spec_fn(Seq<char>) -> nat,
    config: Config,
    path: Seq<char>,
)
    requires
        ranked(listings, rank),
        listings(path) is Some,
    ensures
        ranks_below(selection(listings(path)->0, config), rank, rank(path)),
{
    let listing = listings(path)->0;
    let queue = selection(listing, config);
    assert forall|k: int| 0 <= k < queue.len() && enterable(#[trigger] queue[k]) implies rank(
        queue[k].path,
    ) < rank(path) by {
        crate::order::lemma_selection_visible(listing, config, k);
        let i = choose|i: int| 0 <= i < listing.len() && listing[i] == queue[k];
        assert(entry_at(listings, path, i) == queue[k]);
    }
}

/// The content of an entry is shown in full where the nesting allowed for
/// reaches the rank of the directory that holds the entry.
proof fn lemma_content_complete(
    listings: Listings,
    rank: spec_fn(Seq<char>) -> nat,
    config: Config,
    visited: Set<Seq<char>>,
    head: EntryView,
    below: Seq<char>,
    depth: nat,
    nesting: nat,
    bound: nat,
)
    requires
        config.cycle_detection != CycleDetection::Fast,
        ranked(listings, rank),
        head.is_directory ==> (head.canonical matches Some(resolved) ==> visited.contains(
            resolved,
        )),
        enterable(head) ==> rank(head.path) < bound,
        bound <= nesting,
    ensures
        show_content(listings, config, visited, head, below, depth, nesting).complete,
        visited.subset_of(
            show_content(listings, config, visited, head, below, depth, nesting).visited,
        ),
    decreases nesting, 0nat, 0nat,
{
    if descent(config, visited, head, depth) == Descent::Enter {
        assert(enterable(head));
        let pending = PendingView { path: head.path, prefix: below, directory: head.canonical };
        if let Some(listing) = listings(head.path) {
            if !exceeds(config.entry_limit, visible_count(listing, config.show_hidden)) {
                let queue = selection(listing, config);
                let recorded = visited.union(directories_of(queue));
                lemma_selection_ranks(listings, rank, config, head.path);
                lemma_entries_complete(
                    listings,
                    rank,
                    config,
                    recorded,
                    queue,
                    below,
                    head.canonical,
                    depth + 1,
                    (nesting - 1) as nat,
                    rank(head.path),
                );
            }
        }
    }
}

/// The entries of a directory are shown in full where the nesting allowed
/// for reaches the rank of the directory.
proof fn lemma_entries_complete(
    listings: Listings,
    rank: spec_fn(Seq<char>) -> nat,
    config: Config,
    visited: Set<Seq<char>>,
    queue: Seq<EntryView>,
    prefix: Seq<char>,
    directory: Option<Seq<char>>,
    depth: nat,
    nesting: nat,
    bound: nat,
)
    requires
        config.cycle_detection != CycleDetection::Fast,
        ranked(listings, rank),
        directories_of(queue).subset_of(visited),
        ranks_below(queue, rank, bound),
        bound <= nesting,
    ensures
        show_entries(listings, config, visited, queue, prefix, directory, depth, nesting).complete,
        visited.subset_of(
            show_entries(listings, config, visited, queue, prefix, directory, depth, nesting).visited,
        ),
    decreases nesting, 1nat, queue.len(),
{
    if queue.len() > 0 {
        let head = queue[0];
        let below = child_prefix(config, prefix, queue.len() == 1);
        if head.is_directory {
            if let Some(resolved) = head.canonical {
                assert(directories_of(queue).contains(resolved));
            }
        }
        lemma_content_complete(listings, rank, config, visited, head, below, depth, nesting, bound);
        let inner = show_content(listings, config, visited, head, below, depth, nesting);
        let behind = queue.drop_first();
        assert forall|path: Seq<char>| directories_of(behind).contains(
            path,
        ) implies inner.visited.contains(path) by {
            let k = choose|k: int|
                0 <= k < behind.len() && behind[k].is_directory
                    && #[trigger] behind[k].canonical == Some(path);
            assert(queue[k + 1].canonical == Some(path));
            assert(directories_of(queue).contains(path));
        }
        assert forall|k: int| 0 <= k < behind.len() && enterable(
            #[trigger] behind[k],
        ) implies rank(behind[k].path) < bound by {
            assert(behind[k] == queue[k + 1]);
        }
        lemma_entries_complete(
            listings,
            rank,
            config,
            inner.visited,
            behind,
            prefix,
            directory,
            depth,
            nesting,
            bound,
        );
    }
}

/// A walk that detects cycles ends on every filesystem of finite depth,
/// whatever symlinks it holds: the tree is shown in full within the nesting
/// that the rank of the root allows for, and the driven walk, having printed
/// it, takes the step that ends it.
pub proof fn lemma_walk_ends(
    listings: Listings,
    rank: spec_fn(Seq<char>) -> nat,
    config: Config,
    root: EntryView,
    ancestors: Set<Seq<char>>,
)
    requires
        config.cycle_detection != CycleDetection::Fast,
        ranked(listings, rank),
    ensures
        ({
            let shown = show_tree(listings, config, root, ancestors, rank(root.path));
            let after = drive(listings, start(config, root, ancestors), shown.steps);
            &&& shown.complete
            &&& after.lines == shown.lines
            &&& after.walker.step(after.event).1 == ActionView::Finished
        }),
{
    let nesting = rank(root.path);
    if root.is_directory {
        if let Some(listing) = listings(root.path) {
            if !exceeds(config.entry_limit, visible_count(listing, config.show_hidden)) {
                let queue = selection(listing, config);
                let recorded = seeded(config, root, ancestors).union(directories_of(queue));
                lemma_selection_ranks(listings, rank, config, root.path);
                lemma_entries_complete(
                    listings,
                    rank,
                    config,
                    recorded,
                    queue,
                    Seq::empty(),
                    root.canonical,
                    0,
                    nesting,
                    nesting,
                );
            }
        }
    }
    lemma_walk_prints_tree(listings, config, root, ancestors, nesting);
}


/// The number of entries below a directory with the given entries, those of
/// its subdirectories counted in, as far down as `nesting` levels.
pub open spec fn population(listings: Listings, entries: Seq<EntryView>, nesting: nat) -> nat
    decreases nesting, entries.len() + 1,
{
    if entries.len() == 0 {
        0
    } else {
        weight(listings, entries[0], nesting) + population(
            listings,
            entries.drop_first(),
            nesting,
        )
    }
}

/// The number of entries that an entry stands for: itself and, where it is a
/// directory that can be read, the entries below it.
pub open spec fn weight(listings: Listings, entry: EntryView, nesting: nat) -> nat
    decreases nesting, 0nat,
{
    if entry.is_directory && nesting > 0 {
        match listings(entry.path) {
            Some(inside) => 1 + population(listings, inside, (nesting - 1) as nat),
            None => 1,
        }
    } else {
        1
    }
}

/// Whether a configuration leaves nothing out: hidden entries and files are
/// shown, and neither the depth nor the number of entries is limited.
pub open spec fn shows_all(config: Config) -> bool {
    &&& config.show_hidden
    &&& !config.dirs_only
    &&& (config.max_depth matches Some(limit) ==> limit == 0)
    &&& (config.entry_limit matches Some(limit) ==> limit == 0)
}

/// Whether an entry is plain: no symlink, not `.` or `..`, and, where it is
/// a directory, one that can be read.
pub open spec fn plain_entry(listings: Listings, entry: EntryView) -> bool {
    &&& !entry.is_symlink
    &&& !is_pseudo(entry.name)
    &&& entry.is_directory ==> listings(entry.path) is Some
}

/// Whether all entries of a sequence are plain.
pub open spec fn all_plain(listings: Listings, entries: Seq<EntryView>) -> bool {
    forall|k: int| 0 <= k < entries.len() ==> plain_entry(listings, #[trigger] entries[k])
}

/// Whether a filesystem is plain: it holds no symlinks, and every directory
/// in it can be read.
pub open spec fn plain(listings: Listings) -> bool {
    forall|path: Seq<char>, index: int|
        listings(path) is Some && 0 <= index < listings(path)->0.len() ==> plain_entry(
            listings,
            #[trigger] entry_at(listings, path, index),
        )
}

/// One more entry at the end adds its weight.
proof fn lemma_population_push(
    listings: Listings,
    entries: Seq<EntryView>,
    last: EntryView,
    nesting: nat,
)
    ensures
        population(listings, entries.push(last), nesting) == population(
            listings,
            entries,
            nesting,
        ) + weight(listings, last, nesting),
    decreases entries.len(),
{
    let longer = entries.push(last);
    if entries.len() == 0 {
        assert(longer.drop_first() =~= entries);
    } else {
        assert(longer.drop_first() =~= entries.drop_first().push(last));
        lemma_population_push(listings, entries.drop_first(), last, nesting);
    }
}

/// One more entry at any place adds its weight.
proof fn lemma_population_insert(
    listings: Listings,
    entries: Seq<EntryView>,
    place: int,
    entry: EntryView,
    nesting: nat,
)
    requires
        0 <= place <= entries.len(),
    ensures
        population(listings, entries.insert(place, entry), nesting) == population(
            listings,
            entries,
            nesting,
        ) + weight(listings, entry, nesting),
    decreases place,
{
    let longer = entries.insert(place, entry);
    entries.insert_ensures(place, entry);
    if place == 0 {
        assert(longer.drop_first() =~= entries);
    } else {
        assert(longer.drop_first() =~= entries.drop_first().insert(place - 1, entry));
        lemma_population_insert(listings, entries.drop_first(), place - 1, entry, nesting);
    }
}

/// The entries of a listing that are arranged, in the order of their lines.
spec fn arranged(listing: Seq<EntryView>, config: Config, upto: int) -> Seq<EntryView> {
    arrangement(listing, config, upto).map_values(|index: int| listing[index])
}

/// Where nothing is left out, as many entries are below the entries that a
/// directory shows as below its listing: the order does not count.
proof fn lemma_population_arranged(
    listings: Listings,
    listing: Seq<EntryView>,
    config: Config,
    nesting: nat,
    upto: int,
)
    requires
        shows_all(config),
        all_plain(listings, listing),
        0 <= upto <= listing.len(),
    ensures
        population(listings, arranged(listing, config, upto), nesting) == population(
            listings,
            listing.take(upto),
            nesting,
        ),
    decreases upto,
{
    if upto == 0 {
        assert(arranged(listing, config, 0) =~= Seq::<EntryView>::empty());
        assert(listing.take(0) =~= Seq::<EntryView>::empty());
    } else {
        lemma_population_arranged(listings, listing, config, nesting, upto - 1);
        let before = arrangement(listing, config, upto - 1);
        let entry = listing[upto - 1];
        let place = slot(listing, before, sort_key(entry), 0);
        crate::order::lemma_slot(listing, before, sort_key(entry), 0);
        before.insert_ensures(place, upto - 1);
        arranged(listing, config, upto - 1).insert_ensures(place, entry);
        assert(arranged(listing, config, upto) =~= arranged(listing, config, upto - 1).insert(
            place,
            entry,
        ));
        lemma_population_insert(
            listings,
            arranged(listing, config, upto - 1),
            place,
            entry,
            nesting,
        );
        assert(listing.take(upto) =~= listing.take(upto - 1).push(entry));
        lemma_population_push(listings, listing.take(upto - 1), entry, nesting);
    }
}

/// Where nothing is left out, a plain directory shows one line for each
/// entry below it, and no other line.
proof fn lemma_lines_counted(
    listings: Listings,
    config: Config,
    visited: Set<Seq<char>>,
    queue: Seq<EntryView>,
    prefix: Seq<char>,
    directory: Option<Seq<char>>,
    depth: nat,
    nesting: nat,
)
    requires
        shows_all(config),
        plain(listings),
        all_plain(listings, queue),
    ensures
        show_entries(listings, config, visited, queue, prefix, directory, depth, nesting).lines.len()
            == population(listings, queue, nesting),
    decreases nesting, 0nat, queue.len(),
{
    if queue.len() > 0 {
        let head = queue[0];
        let below = child_prefix(config, prefix, queue.len() == 1);
        let inner = show_content(listings, config, visited, head, below, depth, nesting);
        let behind = queue.drop_first();
        assert(plain_entry(listings, head));
        assert forall|k: int| 0 <= k < behind.len() implies plain_entry(
            listings,
            #[trigger] behind[k],
        ) by {
            assert(behind[k] == queue[k + 1]);
        }
        if head.is_directory && nesting > 0 {
            let inside = listings(head.path)->0;
            lemma_listing_counted(
                listings,
                config,
                visited,
                PendingView { path: head.path, prefix: below, directory: head.canonical },
                depth + 1,
                (nesting - 1) as nat,
            );
            assert(inner.lines.len() == population(listings, inside, (nesting - 1) as nat));
        } else {
            assert(inner.lines.len() == 0);
        }
        lemma_lines_counted(
            listings,
            config,
            inner.visited,
            behind,
            prefix,
            directory,
            depth,
            nesting,
        );
        let rest = show_entries(
            listings,
            config,
            inner.visited,
            behind,
            prefix,
            directory,
            depth,
            nesting,
        );
        let shown = show_entries(
            listings,
            config,
            visited,
            queue,
            prefix,
            directory,
            depth,
            nesting,
        );
        assert(inner.lines.len() + 1 == weight(listings, head, nesting));
        assert(shown.lines.len() == 1 + inner.lines.len() + rest.lines.len());
    }
}

/// Where nothing is left out, a plain directory that is read shows one line
/// for each entry below it.
proof fn lemma_listing_counted(
    listings: Listings,
    config: Config,
    visited: Set<Seq<char>>,
    pending: PendingView,
    depth: nat,
    nesting: nat,
)
    requires
        shows_all(config),
        plain(listings),
        listings(pending.path) is Some,
    ensures
        show_directory(listings, config, visited, pending, depth, nesting).lines.len()
            == population(listings, listings(pending.path)->0, nesting),
    decreases nesting, 1nat, 0nat,
{
    let listing = listings(pending.path)->0;
    let queue = selection(listing, config);
    let recorded = if config.cycle_detection == CycleDetection::Fast {
        visited
    } else {
        visited.union(directories_of(queue))
    };
    assert forall|k: int| 0 <= k < listing.len() implies plain_entry(
        listings,
        #[trigger] listing[k],
    ) by {
        assert(entry_at(listings, pending.path, k) == listing[k]);
    }
    assert forall|k: int| 0 <= k < queue.len() implies plain_entry(
        listings,
        #[trigger] queue[k],
    ) by {
        crate::order::lemma_selection_visible(listing, config, k);
        let i = choose|i: int| 0 <= i < listing.len() && listing[i] == queue[k];
    }
    lemma_lines_counted(
        listings,
        config,
        recorded,
        queue,
        pending.prefix,
        pending.directory,
        depth,
        nesting,
    );
    lemma_population_arranged(listings, listing, config, nesting, listing.len() as int);
    assert(queue =~= arranged(listing, config, listing.len() as int));
    assert(listing.take(listing.len() as int) =~= listing);
}

/// The tree of a plain filesystem, shown with nothing left out, has one line
/// for the root and one for each entry below it, and no other line.
pub proof fn lemma_one_line_per_descendant(
    listings: Listings,
    config: Config,
    root: EntryView,
    ancestors: Set<Seq<char>>,
    nesting: nat,
)
    requires
        shows_all(config),
        plain(listings),
        root.is_directory,
        listings(root.path) is Some,
    ensures
        show_tree(listings, config, root, ancestors, nesting).lines.len() == 1 + population(
            listings,
            listings(root.path)->0,
            nesting,
        ),
{
    lemma_listing_counted(
        listings,
        config,
        seeded(config, root, ancestors),
        PendingView { path: root.path, prefix: Seq::empty(), directory: root.canonical },
        0,
        nesting,
    );
}

/// Shown by its name, without colors and without annotation, the line of an
/// entry that is no symlink is the prefix, the connector and the final
/// component of its path.
pub proof fn lemma_line_ends_in_name(
    config: Config,
    prefix: Seq<char>,
    directory: Option<Seq<char>>,
    entry: EntryView,
    last: bool,
)
    requires
        config.path_style == crate::config::PathStyle::Name,
        config.show_permissions == crate::config::PermissionStyle::Off,
        config.show_size == crate::config::SizeStyle::Off,
        !config.colorize,
        !entry.is_symlink,
    ensures
        entry_line(config, prefix, directory, entry, last) == prefix + crate::render::drawn(
            config.indent,
            crate::render::entry_connector(last),
        ) + entry.name,
{
    assert(crate::render::annotation(entry, config.show_permissions, config.show_size)
        =~= Seq::<char>::empty());
    assert(entry_line(config, prefix, directory, entry, last) =~= prefix + crate::render::drawn(
        config.indent,
        crate::render::entry_connector(last),
    ) + entry.name);
}


/// The entries that a directory of a plain filesystem shows are plain.
proof fn lemma_selection_plain(listings: Listings, config: Config, path: Seq<char>)
    requires
        plain(listings),
        listings(path) is Some,
    ensures
        all_plain(listings, selection(listings(path)->0, config)),
{
    let listing = listings(path)->0;
    let queue = selection(listing, config);
    assert forall|k: int| 0 <= k < queue.len() implies plain_entry(
        listings,
        #[trigger] queue[k],
    ) by {
        crate::order::lemma_selection_visible(listing, config, k);
        let i = choose|i: int| 0 <= i < listing.len() && listing[i] == queue[k];
        assert(entry_at(listings, path, i) == queue[k]);
    }
}

/// On a plain filesystem the content of an entry is shown in full where the
/// nesting allowed for reaches the rank of the directory that holds the
/// entry.
proof fn lemma_plain_content_complete(
    listings: Listings,
    rank: spec_fn(Seq<char>) -> nat,
    config: Config,
    visited: Set<Seq<char>>,
    head: EntryView,
    below: Seq<char>,
    depth: nat,
    nesting: nat,
    bound: nat,
)
    requires
        plain(listings),
        ranked(listings, rank),
        plain_entry(listings, head),
        head.is_directory ==> rank(head.path) < bound,
        bound <= nesting,
    ensures
        show_content(listings, config, visited, head, below, depth, nesting).complete,
    decreases nesting, 0nat, 0nat,
{
    if descent(config, visited, head, depth) == Descent::Enter {
        if let Some(listing) = listings(head.path) {
            if !exceeds(config.entry_limit, visible_count(listing, config.show_hidden)) {
                let queue = selection(listing, config);
                let recorded = if config.cycle_detection == CycleDetection::Fast {
                    visited
                } else {
                    visited.union(directories_of(queue))
                };
                lemma_selection_plain(listings, config, head.path);
                lemma_selection_ranks(listings, rank, config, head.path);
                lemma_plain_entries_complete(
                    listings,
                    rank,
                    config,
                    recorded,
                    queue,
                    below,
                    head.canonical,
                    depth + 1,
                    (nesting - 1) as nat,
                    rank(head.path),
                );
            }
        }
    }
}

/// On a plain filesystem the entries of a directory are shown in full where
/// the nesting allowed for reaches the rank of the directory.
proof fn lemma_plain_entries_complete(
    listings: Listings,
    rank: spec_fn(Seq<char>) -> nat,
    config: Config,
    visited: Set<Seq<char>>,
    queue: Seq<EntryView>,
    prefix: Seq<char>,
    directory: Option<Seq<char>>,
    depth: nat,
    nesting: nat,
    bound: nat,
)
    requires
        plain(listings),
        ranked(listings, rank),
        all_plain(listings, queue),
        ranks_below(queue, rank, bound),
        bound <= nesting,
    ensures
        show_entries(listings, config, visited, queue, prefix, directory, depth, nesting).complete,
    decreases nesting, 1nat, queue.len(),
{
    if queue.len() > 0 {
        let head = queue[0];
        let below = child_prefix(config, prefix, queue.len() == 1);
        assert(plain_entry(listings, head));
        lemma_plain_content_complete(
            listings,
            rank,
            config,
            visited,
            head,
            below,
            depth,
            nesting,
            bound,
        );
        let inner = show_content(listings, config, visited, head, below, depth, nesting);
        let behind = queue.drop_first();
        assert forall|k: int| 0 <= k < behind.len() implies plain_entry(
            listings,
            #[trigger] behind[k],
        ) by {
            assert(behind[k] == queue[k + 1]);
        }
        assert forall|k: int| 0 <= k < behind.len() && enterable(
            #[trigger] behind[k],
        ) implies rank(behind[k].path) < bound by {
            assert(behind[k] == queue[k + 1]);
        }
        lemma_plain_entries_complete(
            listings,
            rank,
            config,
            inner.visited,
            behind,
            prefix,
            directory,
            depth,
            nesting,
            bound,
        );
    }
}

/// On a plain filesystem of finite depth a walk ends, whatever the
/// configuration, the detection of cycles off included: the tree is shown in
/// full within the nesting that the rank of the root allows for, and the
/// driven walk, having printed it, takes the step that ends it.
pub proof fn lemma_plain_walk_ends(
    listings: Listings,
    rank: spec_fn(Seq<char>) -> nat,
    config: Config,
    root: EntryView,
    ancestors: Set<Seq<char>>,
)
    requires
        plain(listings),
        ranked(listings, rank),
    ensures
        ({
            let shown = show_tree(listings, config, root, ancestors, rank(root.path));
            let after = drive(listings, start(config, root, ancestors), shown.steps);
            &&& shown.complete
            &&& after.lines == shown.lines
            &&& after.walker.step(after.event).1 == ActionView::Finished
        }),
{
    let nesting = rank(root.path);
    if root.is_directory {
        if let Some(listing) = listings(root.path) {
            if !exceeds(config.entry_limit, visible_count(listing, config.show_hidden)) {
                let queue = selection(listing, config);
                let seeds = seeded(config, root, ancestors);
                let recorded = if config.cycle_detection == CycleDetection::Fast {
                    seeds
                } else {
                    seeds.union(directories_of(queue))
                };
                lemma_selection_plain(listings, config, root.path);
                lemma_selection_ranks(listings, rank, config, root.path);
                lemma_plain_entries_complete(
                    listings,
                    rank,
                    config,
                    recorded,
                    queue,
                    Seq::empty(),
                    root.canonical,
                    0,
                    nesting,
                    nesting,
                );
            }
        }
    }
    lemma_walk_prints_tree(listings, config, root, ancestors, nesting);
}

} // verus!
