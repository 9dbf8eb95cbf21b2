//! The walk of a directory tree, as a machine that is driven from outside.
//!
//! The machine decides; whoever drives it touches the filesystem. Each call
//! of `Walker::step` hands the machine an event and gets an action back: a
//! line to print, a directory to read, or the end of the walk. After a line
//! is printed the driver resumes the machine; after it has read a directory
//! it hands over the listing, or says that the directory cannot be read.

use vstd::prelude::*;
use crate::config::{exceeds, reaches, Config, CycleDetection};
use crate::entry::{text_of, views, Entry, EntryView};
use crate::order::{arrange, count_visible, selection, visible_count};
use crate::render::{
    child_prefix, cycle_line, entry_line, limit_line, line_of_cycle, line_of_entry,
    line_of_limit, line_of_not_directory, line_of_root, line_of_unreadable, not_directory_line,
    prefix_of_children, root_line, unreadable_line,
};

verus! {

/// How far the walk has come.
#[derive(Clone, Copy, Debug, PartialEq, Eq, Structural)]
pub enum Phase {
    /// Nothing is printed yet.
    Start,
    /// The line of the root is printed.
    Root,
    /// The directories are walked.
    Walk,
}

/// What happened outside since the last action.
#[derive(Debug)]
pub enum Event {
    /// The line was printed, or nothing was asked.
    Resume,
    /// The entries of the directory that was to be read, in any order.
    Listing(Vec<Entry>),
    /// The directory that was to be read cannot be read.
    Unreadable,
}

/// The mathematical value of an `Event`.
pub enum EventView {
    Resume,
    Listing(Seq<EntryView>),
    Unreadable,
}

impl View for Event {
    type V = EventView;

    open spec fn view(&self) -> EventView {
        match self {
            Event::Resume => EventView::Resume,
            Event::Listing(listing) => EventView::Listing(views(listing@)),
            Event::Unreadable => EventView::Unreadable,
        }
    }
}

/// What is to happen outside next.
#[derive(Debug)]
pub enum Action {
    /// Print this line.
    Print(String),
    /// Read the directory at this path.
    Read(String),
    /// The walk is over.
    Finished,
}

/// The mathematical value of an `Action`.
pub enum ActionView {
    Print(Seq<char>),
    Read(Seq<char>),
    Finished,
}

impl View for Action {
    type V = ActionView;

    open spec fn view(&self) -> ActionView {
        match self {
            Action::Print(line) => ActionView::Print(line@),
            Action::Read(path) => ActionView::Read(path@),
            Action::Finished => ActionView::Finished,
        }
    }
}

/// The state of one directory that is being shown. Its depth is its position
/// in the stack of the walk: the frame of the root's listing is at depth 0.
pub struct FrameView {
    /// The entries that are still to be dealt with, in the order of their
    /// lines. The first is the current one.
    pub queue: Seq<EntryView>,
    /// Whether the line of the current entry is printed.
    pub announced: bool,
    /// What stands in front of the connector on each line of the directory.
    pub prefix: Seq<char>,
    /// The canonical path of the directory, where it is known.
    pub directory: Option<Seq<char>>,
}

/// A directory that is to be read, and what its frame will hold. Its depth is
/// the height of the stack.
pub struct PendingView {
    pub path: Seq<char>,
    pub prefix: Seq<char>,
    pub directory: Option<Seq<char>>,
}

/// The state of a walk.
pub struct WalkerView {
    pub config: Config,
    pub root: EntryView,
    /// The canonical paths of the directories above the root.
    pub ancestors: Set<Seq<char>>,
    pub phase: Phase,
    /// The canonical paths of the directories known to be reachable.
    pub visited: Set<Seq<char>>,
    /// The directories that are being shown, the root's listing first.
    pub stack: Seq<FrameView>,
    /// The directory that is being read, if any.
    pub pending: Option<PendingView>,
}

/// What is done about the content of an entry whose line is printed.
#[derive(Clone, Copy, Debug, PartialEq, Eq, Structural)]
pub enum Descent {
    /// Its directory is read and shown.
    Enter,
    /// A line says that a symlink cycle was detected.
    Cycle,
    /// Nothing.
    Skip,
}

/// What is done about the content of `entry`, an entry of a directory at
/// `depth`.
///
/// Only a directory has content. That of a symlink is skipped unless
/// symlinks are followed; a followed symlink into a recorded directory is a
/// cycle, unless the detection is off. A directory at the depth limit is not
/// read.
pub open spec fn descent(
    config: Config,
    visited: Set<Seq<char>>,
    entry: EntryView,
    depth: nat,
) -> Descent {
    if !entry.is_directory {
        Descent::Skip
    } else if entry.is_symlink && !config.follow_symlinks {
        Descent::Skip
    } else if entry.is_symlink && config.cycle_detection != CycleDetection::Fast && (
    entry.canonical matches Some(resolved) && visited.contains(resolved)) {
        Descent::Cycle
    } else if reaches(config.max_depth, depth + 1) {
        Descent::Skip
    } else {
        Descent::Enter
    }
}

/// The canonical paths of the directories among `queue`.
pub open spec fn directories_of(queue: Seq<EntryView>) -> Set<Seq<char>> {
    Set::new(
        |path: Seq<char>|
            exists|k: int|
                0 <= k < queue.len() && queue[k].is_directory && #[trigger] queue[k].canonical
                    == Some(path),
    )
}

/// The set of an optional path.
pub open spec fn path_set(path: Option<Seq<char>>) -> Set<Seq<char>> {
    match path {
        Some(p) => set![p],
        None => Set::empty(),
    }
}

/// The directories recorded before the root is read: none where the
/// detection is off, else the root, and with it its ancestors where the
/// detection is advanced.
pub open spec fn seeded(
    config: Config,
    root: EntryView,
    ancestors: Set<Seq<char>>,
) -> Set<Seq<char>> {
    match config.cycle_detection {
        CycleDetection::Fast => Set::empty(),
        CycleDetection::Precomputed => path_set(root.canonical),
        CycleDetection::Advanced => path_set(root.canonical).union(ancestors),
    }
}

/// The stack without the frames at its top that have nothing left to show.
pub open spec fn settle(stack: Seq<FrameView>) -> Seq<FrameView>
    decreases stack.len(),
{
    if stack.len() == 0 || stack.last().queue.len() > 0 {
        stack
    } else {
        settle(stack.drop_last())
    }
}

/// The stack with another frame in place of its top.
pub open spec fn with_top(stack: Seq<FrameView>, top: FrameView) -> Seq<FrameView> {
    stack.drop_last().push(top)
}

impl WalkerView {
    /// The state before anything has happened.
    pub open spec fn initial(
        config: Config,
        root: EntryView,
        ancestors: Set<Seq<char>>,
    ) -> WalkerView {
        WalkerView {
            config,
            root,
            ancestors,
            phase: Phase::Start,
            visited: Set::empty(),
            stack: Seq::empty(),
            pending: None,
        }
    }

    /// Prints the line of the next entry, or ends the walk where none is
    /// left.
    pub open spec fn announce(self) -> (WalkerView, ActionView) {
        let stack = settle(self.stack);
        if stack.len() == 0 {
            (WalkerView { stack, ..self }, ActionView::Finished)
        } else {
            let top = stack.last();
            let line = entry_line(
                self.config,
                top.prefix,
                top.directory,
                top.queue[0],
                top.queue.len() == 1,
            );
            (
                WalkerView {
                    stack: with_top(stack, FrameView { announced: true, ..top }),
                    ..self
                },
                ActionView::Print(line),
            )
        }
    }

    /// Goes on with the walk while no directory is being read: deals with the
    /// content of the entry whose line is printed, and then prints the line
    /// of the next entry.
    pub open spec fn advance(self) -> (WalkerView, ActionView) {
        let stack = settle(self.stack);
        if stack.len() > 0 && stack.last().announced {
            let top = stack.last();
            let head = top.queue[0];
            let below = child_prefix(self.config, top.prefix, top.queue.len() == 1);
            let rest = with_top(
                stack,
                FrameView { queue: top.queue.drop_first(), announced: false, ..top },
            );
            match descent(self.config, self.visited, head, (stack.len() - 1) as nat) {
                Descent::Enter => (
                    WalkerView {
                        stack: rest,
                        pending: Some(
                            PendingView {
                                path: head.path,
                                prefix: below,
                                directory: head.canonical,
                            },
                        ),
                        ..self
                    },
                    ActionView::Read(head.path),
                ),
                Descent::Cycle => (
                    WalkerView { stack: rest, ..self },
                    ActionView::Print(cycle_line(below)),
                ),
                Descent::Skip => (WalkerView { stack: rest, ..self }).announce(),
            }
        } else {
            self.announce()
        }
    }

    /// Takes the listing of the directory that was to be read.
    ///
    /// Where more entries pass the filter on names than the limit allows, one
    /// line says so and nothing of the directory is shown. Else the entries
    /// that get a line are queued in the order of their names, the
    /// directories among them are recorded unless the detection is off, and
    /// the line of the first is printed.
    pub open spec fn enter(self, pending: PendingView, listing: Seq<EntryView>) -> (
        WalkerView,
        ActionView,
    ) {
        let count = visible_count(listing, self.config.show_hidden);
        if exceeds(self.config.entry_limit, count) {
            (
                WalkerView { pending: None, ..self },
                ActionView::Print(limit_line(pending.prefix, count)),
            )
        } else {
            let queue = selection(listing, self.config);
            let visited = if self.config.cycle_detection == CycleDetection::Fast {
                self.visited
            } else {
                self.visited.union(directories_of(queue))
            };
            let frame = FrameView {
                queue,
                announced: false,
                prefix: pending.prefix,
                directory: pending.directory,
            };
            (WalkerView { pending: None, visited, stack: self.stack.push(frame), ..self }).announce()
        }
    }

    /// The state after `event`, and the action that answers it.
    ///
    /// At the start the line of the root is printed. Then the root is to be
    /// read if it is a directory; if not, a line says so. While a directory
    /// is to be read, only its listing, or the word that it cannot be read,
    /// is taken; any other event asks for it again. While none is to be read
    /// the walk goes on, whatever the event.
    pub open spec fn step(self, event: EventView) -> (WalkerView, ActionView) {
        match self.phase {
            Phase::Start => (
                WalkerView { phase: Phase::Root, ..self },
                ActionView::Print(root_line(self.config, self.root)),
            ),
            Phase::Root => if self.root.is_directory {
                (
                    WalkerView {
                        phase: Phase::Walk,
                        visited: self.visited.union(
                            seeded(self.config, self.root, self.ancestors),
                        ),
                        pending: Some(
                            PendingView {
                                path: self.root.path,
                                prefix: Seq::empty(),
                                directory: self.root.canonical,
                            },
                        ),
                        ..self
                    },
                    ActionView::Read(self.root.path),
                )
            } else {
                (WalkerView { phase: Phase::Walk, ..self }, ActionView::Print(not_directory_line()))
            },
            Phase::Walk => match self.pending {
                Some(pending) => match event {
                    EventView::Resume => (self, ActionView::Read(pending.path)),
                    EventView::Unreadable => (
                        WalkerView { pending: None, ..self },
                        ActionView::Print(unreadable_line(pending.prefix)),
                    ),
                    EventView::Listing(listing) => self.enter(pending, listing),
                },
                None => self.advance(),
            },
        }
    }
}


/// The texts of a list, as a set.
pub open spec fn texts(list: Seq<String>) -> Set<Seq<char>> {
    Set::new(|text: Seq<char>| exists|i: int| 0 <= i < list.len() && #[trigger] list[i]@ == text)
}

/// A directory that is being shown: its listing, the order of the entries
/// that get a line, and how far the walk has come in it.
struct Frame {
    listing: Vec<Entry>,
    order: Vec<usize>,
    next: usize,
    announced: bool,
    prefix: String,
    directory: Option<String>,
}

impl Frame {
    #[verifier::type_invariant]
    spec fn well_formed(self) -> bool {
        &&& self.next <= self.order.len()
        &&& forall|k: int| 0 <= k < self.order.len() ==> #[trigger] self.order[k] < self.listing.len()
    }

    /// The entries that are still to be dealt with.
    spec fn queue(self) -> Seq<EntryView> {
        Seq::new(
            (self.order.len() - self.next) as nat,
            |k: int| self.listing[self.order[self.next + k] as int]@,
        )
    }
}

impl View for Frame {
    type V = FrameView;

    closed spec fn view(&self) -> FrameView {
        FrameView {
            queue: self.queue(),
            announced: self.announced,
            prefix: self.prefix@,
            directory: text_of(self.directory),
        }
    }
}

/// The values of the frames of a stack.
spec fn frames(stack: Seq<Frame>) -> Seq<FrameView> {
    stack.map_values(|frame: Frame| frame@)
}

/// A directory that is to be read.
struct Pending {
    path: String,
    prefix: String,
    directory: Option<String>,
}

impl View for Pending {
    type V = PendingView;

    closed spec fn view(&self) -> PendingView {
        PendingView { path: self.path@, prefix: self.prefix@, directory: text_of(self.directory) }
    }
}

/// The value of an optional pending directory.
spec fn pending_view(pending: Option<Pending>) -> Option<PendingView> {
    match pending {
        Some(p) => Some(p@),
        None => None,
    }
}

/// A walk of a directory tree.
pub struct Walker {
    config: Config,
    root: Entry,
    ancestors: Vec<String>,
    phase: Phase,
    visited: Vec<String>,
    stack: Vec<Frame>,
    pending: Option<Pending>,
}

impl View for Walker {
    type V = WalkerView;

    closed spec fn view(&self) -> WalkerView {
        WalkerView {
            config: self.config,
            root: self.root@,
            ancestors: texts(self.ancestors@),
            phase: self.phase,
            visited: texts(self.visited@),
            stack: frames(self.stack@),
            pending: pending_view(self.pending),
        }
    }
}

/// A copy of an optional text.
fn copy_of(text: &Option<String>) -> (copy: Option<String>)
    ensures
        text_of(copy) == text_of(*text),
{
    match text {
        Some(t) => Some(t.clone()),
        None => None,
    }
}

/// Whether `text` is in the list.
fn holds(list: &Vec<String>, text: &String) -> (found: bool)
    ensures
        found == texts(list@).contains(text@),
{
    let mut i: usize = 0;
    while i < list.len()
        invariant
            i <= list.len(),
            forall|j: int| 0 <= j < i ==> #[trigger] list[j]@ != text@,
        decreases list.len() - i,
    {
        if list[i] == *text {
            return true;
        }
        i = i + 1;
    }
    false
}

/// The texts of a list with one more element are the texts of the list and
/// that of the element.
proof fn lemma_texts_push(list: Seq<String>, last: String)
    ensures
        texts(list.push(last)) == texts(list).insert(last@),
{
    let longer = list.push(last);
    assert forall|t: Seq<char>| texts(longer).contains(t) <==> texts(list).insert(
        last@,
    ).contains(t) by {
        if texts(longer).contains(t) {
            let i = choose|i: int| 0 <= i < longer.len() && #[trigger] longer[i]@ == t;
            if i < list.len() {
                assert(list[i]@ == t);
            }
        }
        if texts(list).contains(t) {
            let i = choose|i: int| 0 <= i < list.len() && #[trigger] list[i]@ == t;
            assert(longer[i]@ == t);
        }
        if t == last@ {
            assert(longer[list.len() as int]@ == t);
        }
    }
    assert(texts(longer) =~= texts(list).insert(last@));
}

/// Puts a copy of `text` into the list.
fn record(list: &mut Vec<String>, text: &String)
    ensures
        texts(final(list)@) == texts(old(list)@).insert(text@),
{
    let copy = text.clone();
    proof {
        lemma_texts_push(list@, copy);
    }
    list.push(copy);
}


/// A settled stack is empty or has something to show at its top, and to
/// settle it again changes nothing.
pub proof fn lemma_settled(stack: Seq<FrameView>)
    ensures
        settle(stack).len() <= stack.len(),
        settle(stack).len() > 0 ==> settle(stack).last().queue.len() > 0,
        settle(settle(stack)) == settle(stack),
        settle(stack) == stack.take(settle(stack).len() as int),
    decreases stack.len(),
{
    if stack.len() == 0 || stack.last().queue.len() > 0 {
        assert(stack.take(stack.len() as int) =~= stack);
    } else {
        lemma_settled(stack.drop_last());
        let height = settle(stack).len() as int;
        assert(stack.drop_last().take(height) =~= stack.take(height));
    }
}

/// Takes the frames that have nothing left to show off the top of the stack.
fn settle_stack(stack: &mut Vec<Frame>)
    ensures
        frames(final(stack)@) == settle(frames(old(stack)@)),
        final(stack).len() > 0 ==> frames(final(stack)@).last().queue.len() > 0,
{
    proof {
        lemma_settled(frames(old(stack)@));
    }
    while stack.len() > 0
        invariant
            settle(frames(stack@)) == settle(frames(old(stack)@)),
        decreases stack.len(),
    {
        let top = &stack[stack.len() - 1];
        proof {
            use_type_invariant(top);
        }
        if top.next < top.order.len() {
            assert(frames(stack@).last() == top@);
            return ;
        }
        assert(frames(stack@).last() == top@);
        let ghost before = stack@;
        stack.pop();
        assert(frames(stack@) =~= frames(before).drop_last());
    }
}

/// Records the directories among the entries that a frame shows.
fn record_directories(visited: &mut Vec<String>, frame: &Frame)
    requires
        frame.next == 0,
    ensures
        texts(final(visited)@) == texts(old(visited)@).union(directories_of(frame.queue())),
{
    proof {
        use_type_invariant(frame);
    }
    let ghost queue = frame.queue();
    let mut k: usize = 0;
    assert(texts(visited@) =~= texts(old(visited)@).union(directories_of(queue.take(0))));
    while k < frame.order.len()
        invariant
            k <= frame.order.len(),
            frame.next == 0,
            frame.well_formed(),
            queue == frame.queue(),
            texts(visited@) == texts(old(visited)@).union(directories_of(queue.take(k as int))),
        decreases frame.order.len() - k,
    {
        let entry = &frame.listing[frame.order[k]];
        let ghost before = texts(visited@);
        assert(queue[k as int] == entry@);
        if entry.is_directory {
            match &entry.canonical {
                Some(resolved) => {
                    record(visited, resolved);
                },
                None => {},
            }
        }
        proof {
            let shorter = queue.take(k as int);
            let longer = queue.take(k + 1);
            assert(longer[k as int] == entry@);
            assert forall|path: Seq<char>|
                directories_of(longer).contains(path) <==> (directories_of(shorter).contains(path)
                    || (entry@.is_directory && entry@.canonical == Some(path))) by {
                if directories_of(longer).contains(path) {
                    let j = choose|j: int|
                        0 <= j < longer.len() && longer[j].is_directory
                            && #[trigger] longer[j].canonical == Some(path);
                    if j < k {
                        assert(shorter[j].canonical == Some(path));
                    }
                }
                if directories_of(shorter).contains(path) {
                    let j = choose|j: int|
                        0 <= j < shorter.len() && shorter[j].is_directory
                            && #[trigger] shorter[j].canonical == Some(path);
                    assert(longer[j].canonical == Some(path));
                }
            }
            assert(texts(visited@) =~= texts(old(visited)@).union(directories_of(longer)));
        }
        k = k + 1;
    }
    assert(queue.take(k as int) =~= queue);
}

impl Walker {
    /// A walk that is about to start. `root` describes the root argument: its
    /// name and its path are the argument as it was given. `ancestors` holds
    /// the canonical paths of the directories above the root.
    pub fn new(config: Config, root: Entry, ancestors: Vec<String>) -> (walker: Walker)
        ensures
            walker@ == WalkerView::initial(config, root@, texts(ancestors@)),
    {
        let walker = Walker {
            config,
            root,
            ancestors,
            phase: Phase::Start,
            visited: Vec::new(),
            stack: Vec::new(),
            pending: None,
        };
        assert(texts(walker.visited@) =~= Set::<Seq<char>>::empty());
        assert(frames(walker.stack@) =~= Seq::<FrameView>::empty());
        walker
    }

    /// Records the root, and its ancestors, as the detection of cycles asks.
    fn seed(&mut self)
        ensures
            final(self)@ == (WalkerView {
                visited: old(self)@.visited.union(
                    seeded(old(self)@.config, old(self)@.root, old(self)@.ancestors),
                ),
                ..old(self)@
            }),
    {
        if matches!(self.config.cycle_detection, CycleDetection::Fast) {
            assert(self@.visited =~= old(self)@.visited.union(Set::empty()));
            return ;
        }
        match &self.root.canonical {
            Some(resolved) => {
                record(&mut self.visited, resolved);
            },
            None => {},
        }
        assert(texts(self.visited@) =~= old(self)@.visited.union(path_set(self.root@.canonical)));
        if matches!(self.config.cycle_detection, CycleDetection::Advanced) {
            let mut i: usize = 0;
            assert(texts(self.ancestors@.take(0)) =~= Set::<Seq<char>>::empty());
            while i < self.ancestors.len()
                invariant
                    i <= self.ancestors.len(),
                    self.config == old(self).config,
                    self.root == old(self).root,
                    self.ancestors == old(self).ancestors,
                    self.phase == old(self).phase,
                    self.stack == old(self).stack,
                    self.pending == old(self).pending,
                    texts(self.visited@) == old(self)@.visited.union(
                        path_set(self.root@.canonical),
                    ).union(texts(self.ancestors@.take(i as int))),
                decreases self.ancestors.len() - i,
            {
                let ghost shorter = self.ancestors@.take(i as int);
                let ghost longer = self.ancestors@.take(i + 1);
                record(&mut self.visited, &self.ancestors[i]);
                proof {
                    assert(longer =~= shorter.push(self.ancestors@[i as int]));
                    lemma_texts_push(shorter, self.ancestors@[i as int]);
                    assert(texts(self.visited@) =~= old(self)@.visited.union(
                        path_set(self.root@.canonical),
                    ).union(texts(longer)));
                }
                i = i + 1;
            }
            assert(self.ancestors@.take(i as int) =~= self.ancestors@);
        }
        assert(texts(self.visited@) =~= old(self)@.visited.union(
            seeded(old(self)@.config, old(self)@.root, old(self)@.ancestors),
        ));
    }

    /// Prints the line of the next entry, or ends the walk.
    fn announce(&mut self) -> (action: Action)
        ensures
            (final(self)@, action@) == old(self)@.announce(),
    {
        settle_stack(&mut self.stack);
        let ghost settled = frames(self.stack@);
        match self.stack.pop() {
            None => Action::Finished,
            Some(top) => {
                proof {
                    use_type_invariant(&top);
                }
                let mut top = top;
                assert(settled.last() == top@);
                assert(frames(self.stack@) =~= settled.drop_last());
                let entry = &top.listing[top.order[top.next]];
                assert(top@.queue[0] == entry@);
                let last = top.next + 1 == top.order.len();
                let line = line_of_entry(
                    &self.config,
                    top.prefix.as_str(),
                    &top.directory,
                    entry,
                    last,
                );
                let ghost shown = top@;
                top.announced = true;
                assert(top@ == (FrameView { announced: true, ..shown }));
                self.stack.push(top);
                assert(frames(self.stack@) =~= with_top(
                    settled,
                    FrameView { announced: true, ..shown },
                ));
                Action::Print(line)
            },
        }
    }

    /// What is done about the content of `entry`, an entry of a directory at
    /// `depth`.
    fn decide(&self, entry: &Entry, depth: usize) -> (decision: Descent)
        requires
            depth < usize::MAX,
        ensures
            decision == descent(self@.config, self@.visited, entry@, depth as nat),
    {
        if !entry.is_directory {
            return Descent::Skip;
        }
        if entry.is_symlink && !self.config.follow_symlinks {
            return Descent::Skip;
        }
        if entry.is_symlink && !matches!(self.config.cycle_detection, CycleDetection::Fast) {
            match &entry.canonical {
                Some(resolved) => {
                    if holds(&self.visited, resolved) {
                        return Descent::Cycle;
                    }
                },
                None => {},
            }
        }
        if self.config.at_depth_limit(depth + 1) {
            Descent::Skip
        } else {
            Descent::Enter
        }
    }

    /// Goes on with the walk while no directory is being read.
    fn advance(&mut self) -> (action: Action)
        ensures
            (final(self)@, action@) == old(self)@.advance(),
    {
        settle_stack(&mut self.stack);
        proof {
            lemma_settled(old(self)@.stack);
        }
        let ghost settled = frames(self.stack@);
        let height: usize = self.stack.len();
        if height == 0 || !self.stack[height - 1].announced {
            assert(height > 0 ==> settled.last() == self.stack@[height - 1]@);
            return self.announce();
        }
        assert(settled.last() == self.stack@[height - 1]@);
        match self.stack.pop() {
            None => Action::Finished,
            Some(top) => {
                proof {
                    use_type_invariant(&top);
                }
                let mut top = top;
                let ghost shown = top@;
                assert(settled.last() == shown);
                assert(frames(self.stack@) =~= settled.drop_last());
                let entry = &top.listing[top.order[top.next]];
                assert(shown.queue[0] == entry@);
                let last = top.next + 1 == top.order.len();
                let below = prefix_of_children(&self.config, top.prefix.as_str(), last);
                let decision = self.decide(entry, height - 1);
                let path = entry.path.clone();
                let directory = copy_of(&entry.canonical);
                top.next = top.next + 1;
                top.announced = false;
                assert(top@.queue =~= shown.queue.drop_first());
                let ghost rest = with_top(
                    settled,
                    FrameView { queue: shown.queue.drop_first(), announced: false, ..shown },
                );
                self.stack.push(top);
                assert(frames(self.stack@) =~= rest);
                match decision {
                    Descent::Enter => {
                        let target = path.clone();
                        self.pending = Some(Pending { path, prefix: below, directory });
                        Action::Read(target)
                    },
                    Descent::Cycle => Action::Print(line_of_cycle(below.as_str())),
                    Descent::Skip => self.announce(),
                }
            },
        }
    }

    /// Takes the listing of the directory that was to be read.
    fn enter(&mut self, pending: Pending, listing: Vec<Entry>) -> (action: Action)
        ensures
            (final(self)@, action@) == old(self)@.enter(pending@, views(listing@)),
    {
        self.pending = None;
        let count = count_visible(&listing, self.config.show_hidden);
        if self.config.over_limit(count) {
            return Action::Print(line_of_limit(pending.prefix.as_str(), count));
        }
        let order = arrange(&listing, &self.config);
        let ghost entries = views(listing@);
        let frame = Frame {
            listing,
            order,
            next: 0,
            announced: false,
            prefix: pending.prefix,
            directory: pending.directory,
        };
        assert(frame.queue() =~= selection(entries, self.config));
        if !matches!(self.config.cycle_detection, CycleDetection::Fast) {
            record_directories(&mut self.visited, &frame);
        }
        let ghost below = frames(self.stack@);
        self.stack.push(frame);
        assert(frames(self.stack@) =~= below.push(frame@));
        self.announce()
    }

    /// Takes what happened outside and says what is to happen next: the step
    /// of the machine that `WalkerView::step` describes.
    pub fn step(&mut self, event: Event) -> (action: Action)
        ensures
            (final(self)@, action@) == old(self)@.step(event@),
    {
        match self.phase {
            Phase::Start => {
                self.phase = Phase::Root;
                Action::Print(line_of_root(&self.config, &self.root))
            },
            Phase::Root => {
                self.phase = Phase::Walk;
                if self.root.is_directory {
                    self.seed();
                    let path = self.root.path.clone();
                    self.pending = Some(
                        Pending {
                            path: self.root.path.clone(),
                            prefix: String::new(),
                            directory: copy_of(&self.root.canonical),
                        },
                    );
                    Action::Read(path)
                } else {
                    Action::Print(line_of_not_directory())
                }
            },
            Phase::Walk => {
                match self.pending.take() {
                    None => self.advance(),
                    Some(pending) => match event {
                        Event::Resume => {
                            let path = pending.path.clone();
                            self.pending = Some(pending);
                            Action::Read(path)
                        },
                        Event::Unreadable => Action::Print(
                            line_of_unreadable(pending.prefix.as_str()),
                        ),
                        Event::Listing(listing) => self.enter(pending, listing),
                    },
                }
            },
        }
    }
}

} // verus!
