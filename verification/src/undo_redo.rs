//! The undo and redo stacks of a project, and the transactions that fill
//! them.
//!
//! Modules are known here by a number, and their content is text. What
//! restores a module from a frame is not done here: `Manager::undo` and
//! `Manager::redo` hand out the frame to restore, and `Manager::undone` and
//! `Manager::redone` are told when that was done.

use vstd::prelude::*;

verus! {

/// A state that can be gone back to.
#[derive(Debug)]
pub struct Frame {
    /// The name of the transaction that made the frame.
    pub name: String,
    /// The names of the later transactions that the frame covers as well.
    pub secondary_names: Vec<String>,
    /// The module in which the change was made.
    pub module: Option<u64>,
    /// The graph in which the change was made.
    pub graph: Option<u64>,
    /// The content of each module that was edited, as it was before; no
    /// module twice.
    pub snapshots: Vec<(u64, String)>,
}

/// A frame as plain values.
pub struct FrameView {
    pub name: String,
    pub secondary_names: Seq<String>,
    pub module: Option<u64>,
    pub graph: Option<u64>,
    pub snapshots: Seq<(u64, String)>,
}

/// Whether `snapshots` holds the content of the module `id`.
pub open spec fn has_snapshot(snapshots: Seq<(u64, String)>, id: u64) -> bool {
    exists|i: int| 0 <= i < snapshots.len() && (#[trigger] snapshots[i]).0 == id
}

/// Whether no module has two snapshots in `snapshots`.
pub open spec fn distinct_modules(snapshots: Seq<(u64, String)>) -> bool {
    forall|i: int, j: int|
        0 <= i < j < snapshots.len() ==> (#[trigger] snapshots[i]).0 != (#[trigger] snapshots[j]).0
}

impl View for Frame {
    type V = FrameView;

    open spec fn view(&self) -> FrameView {
        FrameView {
            name: self.name,
            secondary_names: self.secondary_names@,
            module: self.module,
            graph: self.graph,
            snapshots: self.snapshots@,
        }
    }
}

impl FrameView {
    /// The frame that has a name and nothing else.
    pub open spec fn named(name: String) -> FrameView {
        FrameView {
            name,
            secondary_names: Seq::empty(),
            module: None,
            graph: None,
            snapshots: Seq::empty(),
        }
    }

    /// The frame with the content of the module `id` stored, unless the
    /// module has a snapshot already: the first one stays.
    pub open spec fn stored(self, id: u64, content: String) -> FrameView {
        if has_snapshot(self.snapshots, id) {
            self
        } else {
            FrameView { snapshots: self.snapshots.push((id, content)), ..self }
        }
    }

    /// The frame with one more secondary name.
    pub open spec fn also_named(self, name: String) -> FrameView {
        FrameView { secondary_names: self.secondary_names.push(name), ..self }
    }
}

/// A copy of a list of names.
pub fn clone_names(names: &Vec<String>) -> (r: Vec<String>)
    ensures
        r@ == names@,
{
    let mut out: Vec<String> = Vec::new();
    let mut i: usize = 0;
    while i < names.len()
        invariant
            0 <= i <= names@.len(),
            out@ == names@.take(i as int),
        decreases names@.len() - i,
    {
        out.push(names[i].clone());
        proof {
            assert(out@ =~= names@.take(i + 1));
        }
        i += 1;
    }
    proof {
        assert(names@.take(i as int) =~= names@);
    }
    out
}

/// A copy of a list of snapshots.
pub fn clone_snapshots(snapshots: &Vec<(u64, String)>) -> (r: Vec<(u64, String)>)
    ensures
        r@ == snapshots@,
{
    let mut out: Vec<(u64, String)> = Vec::new();
    let mut i: usize = 0;
    while i < snapshots.len()
        invariant
            0 <= i <= snapshots@.len(),
            out@ == snapshots@.take(i as int),
        decreases snapshots@.len() - i,
    {
        out.push((snapshots[i].0, snapshots[i].1.clone()));
        proof {
            assert(out@ =~= snapshots@.take(i + 1));
        }
        i += 1;
    }
    proof {
        assert(snapshots@.take(i as int) =~= snapshots@);
    }
    out
}

impl Clone for Frame {
    fn clone(&self) -> (r: Self)
        ensures
            r@ == self@,
    {
        Frame {
            name: self.name.clone(),
            secondary_names: clone_names(&self.secondary_names),
            module: self.module,
            graph: self.graph,
            snapshots: clone_snapshots(&self.snapshots),
        }
    }
}

impl Frame {
    /// Whether no module has two snapshots in the frame.
    pub open spec fn wf(&self) -> bool {
        distinct_modules(self.snapshots@)
    }

    /// The frame that has a name and nothing else.
    pub fn new(name: String) -> (r: Self)
        ensures
            r@ == FrameView::named(name),
            r.wf(),
    {
        Frame {
            name,
            secondary_names: Vec::new(),
            module: None,
            graph: None,
            snapshots: Vec::new(),
        }
    }

    /// Whether the frame holds the content of the module `id`.
    pub fn has_module(&self, id: u64) -> (r: bool)
        ensures
            r == has_snapshot(self@.snapshots, id),
    {
        let mut i: usize = 0;
        while i < self.snapshots.len()
            invariant
                0 <= i <= self.snapshots@.len(),
                forall|j: int| 0 <= j < i ==> (#[trigger] self.snapshots@[j]).0 != id,
            decreases self.snapshots@.len() - i,
        {
            if self.snapshots[i].0 == id {
                return true;
            }
            i += 1;
        }
        false
    }

    /// Stores the content of the module `id`. Only the first content that
    /// is stored for a module is kept.
    pub fn store_module_content(&mut self, id: u64, content: String)
        requires
            old(self).wf(),
        ensures
            final(self)@ == old(self)@.stored(id, content),
            final(self).wf(),
    {
        if !self.has_module(id) {
            self.snapshots.push((id, content));
        }
    }

    /// Adds a secondary name: that of a later transaction which the frame
    /// covers as well.
    pub fn add_secondary_name(&mut self, name: String)
        ensures
            final(self)@ == old(self)@.also_named(name),
            final(self).wf() == old(self).wf(),
    {
        self.secondary_names.push(name)
    }
}


/// Undo was asked for while a transaction was open.
#[derive(Debug, Clone, PartialEq, Eq)]
pub struct CannotUndoDuringTransaction {
    pub transaction_name: String,
}

/// There is nothing to undo, or to redo.
#[derive(Debug, Clone, Copy, PartialEq, Eq, Structural)]
pub struct NoActionToUndo;

/// The transaction that stands in during an undo was still held elsewhere.
#[derive(Debug, Clone, Copy, PartialEq, Eq, Structural)]
pub struct FauxTransactionLeaked;

/// The stack has no frame to take off.
#[derive(Debug, Clone, Copy, PartialEq, Eq, Structural)]
pub struct NoFrameToPop(pub Stack);

/// A frame holds the content of a module that is not open.
#[derive(Debug, Clone, Copy, PartialEq, Eq, Structural)]
pub struct MissingModuleHandle(pub u64);

/// One of the two stacks.
#[derive(Debug, Clone, Copy, PartialEq, Eq, PartialOrd, Ord, Structural)]
pub enum Stack {
    Undo,
    Redo,
}

/// Why an undo or a redo was not done.
#[derive(Debug, Clone, PartialEq, Eq)]
pub enum UndoRedoError {
    NoAction(NoActionToUndo),
    DuringTransaction(CannotUndoDuringTransaction),
    Leaked(FauxTransactionLeaked),
    NoFrame(NoFrameToPop),
    MissingModule(MissingModuleHandle),
}

/// A group of actions that are undone together. While it is open, the
/// content of each module that is edited is stored in its frame, as it was
/// before the first edit. When it is closed, the frame goes onto the undo
/// stack, unless the transaction was ignored or stored nothing.
#[derive(Debug)]
pub struct Transaction {
    pub frame: Frame,
    pub ignored: bool,
}

/// A transaction as plain values.
pub struct TransactionView {
    pub frame: FrameView,
    pub ignored: bool,
}

impl View for Transaction {
    type V = TransactionView;

    open spec fn view(&self) -> TransactionView {
        TransactionView { frame: self.frame@, ignored: self.ignored }
    }
}

impl Transaction {
    /// Whether the transaction's frame is well-formed.
    pub open spec fn wf(&self) -> bool {
        self.frame.wf()
    }

    /// The transaction of that name, with nothing stored, not ignored.
    pub fn new(name: String) -> (r: Self)
        ensures
            r@ == (TransactionView { frame: FrameView::named(name), ignored: false }),
            r.wf(),
    {
        Transaction { frame: Frame::new(name), ignored: false }
    }

    /// The transaction's name.
    pub fn name(&self) -> (r: String)
        ensures
            r == self@.frame.name,
    {
        self.frame.name.clone()
    }

    /// Stores the content of the module `id`, as it was before the action
    /// that is under way. Only the first content that is stored for a module
    /// is kept, so this may be called before every edit.
    pub fn fill_content(&mut self, id: u64, content: String)
        requires
            old(self).wf(),
        ensures
            final(self)@ == (TransactionView {
                frame: old(self)@.frame.stored(id, content),
                ..old(self)@
            }),
            final(self).wf(),
    {
        self.frame.store_module_content(id, content)
    }

    /// Marks the transaction: when it is closed, its frame is dropped.
    pub fn ignore(&mut self)
        ensures
            final(self)@ == (TransactionView { ignored: true, ..old(self)@ }),
            final(self).wf() == old(self).wf(),
    {
        self.ignored = true;
    }
}

/// The frames of a stack as plain values, oldest first.
pub open spec fn frames(stack: Seq<Frame>) -> Seq<FrameView> {
    stack.map_values(|f: Frame| f@)
}

/// Whether every frame of a stack is well-formed.
pub open spec fn frames_wf(stack: Seq<Frame>) -> bool {
    forall|i: int| 0 <= i < stack.len() ==> (#[trigger] stack[i]).wf()
}

/// The two stacks and the open transaction.
#[derive(Debug)]
pub struct Data {
    /// The frames that can be undone, the latest last.
    pub undo: Vec<Frame>,
    /// The frames that can be redone, the latest last.
    pub redo: Vec<Frame>,
    /// The open transaction, if there is one.
    pub current_transaction: Option<Transaction>,
}

/// A repository as plain values.
pub struct DataView {
    pub undo: Seq<FrameView>,
    pub redo: Seq<FrameView>,
    pub current: Option<TransactionView>,
}

impl View for Data {
    type V = DataView;

    open spec fn view(&self) -> DataView {
        DataView {
            undo: frames(self.undo@),
            redo: frames(self.redo@),
            current: match self.current_transaction {
                Some(t) => Some(t@),
                None => None,
            },
        }
    }
}

impl DataView {
    /// The frames of one stack.
    pub open spec fn stack(self, stack: Stack) -> Seq<FrameView> {
        match stack {
            Stack::Undo => self.undo,
            Stack::Redo => self.redo,
        }
    }

    /// The repository with other frames on one stack.
    pub open spec fn with_stack(self, stack: Stack, frames: Seq<FrameView>) -> DataView {
        match stack {
            Stack::Undo => DataView { undo: frames, ..self },
            Stack::Redo => DataView { redo: frames, ..self },
        }
    }

    /// The repository after `name` asked for a transaction: a new one is
    /// open, or the one that was open has one more secondary name.
    pub open spec fn opened(self, name: String) -> DataView {
        match self.current {
            Some(t) => DataView {
                current: Some(TransactionView { frame: t.frame.also_named(name), ..t }),
                ..self
            },
            None => DataView {
                current: Some(TransactionView { frame: FrameView::named(name), ignored: false }),
                ..self
            },
        }
    }

    /// The repository with its open transaction, if any, marked as ignored.
    pub open spec fn ignoring_current(self) -> DataView {
        match self.current {
            Some(t) => DataView { current: Some(TransactionView { ignored: true, ..t }), ..self },
            None => self,
        }
    }

    /// The repository after `frame` was made undoable: it is the latest on
    /// the undo stack, and nothing can be redone.
    pub open spec fn with_undo_frame(self, frame: FrameView) -> DataView {
        DataView { undo: self.undo.push(frame), redo: Seq::empty(), ..self }
    }

    /// The repository after its open transaction was closed.
    pub open spec fn closed(self) -> DataView {
        let rest = DataView { current: None, ..self };
        match self.current {
            Some(t) => if t.frame.snapshots.len() > 0 && !t.ignored {
                rest.with_undo_frame(t.frame)
            } else {
                rest
            },
            None => rest,
        }
    }
}


/// The undo and redo stacks, with transactions to fill them.
#[derive(Debug)]
pub struct Repository {
    pub data: Data,
}

impl View for Repository {
    type V = DataView;

    open spec fn view(&self) -> DataView {
        self.data@
    }
}

/// Pushing a frame onto a stack pushes its plain form onto the stack's.
pub proof fn lemma_frames_push(stack: Seq<Frame>, frame: Frame)
    ensures
        frames(stack.push(frame)) == frames(stack).push(frame@),
{
    assert(frames(stack.push(frame)) =~= frames(stack).push(frame@));
}

/// Taking the latest frame off a stack takes its plain form off the stack's.
pub proof fn lemma_frames_drop_last(stack: Seq<Frame>)
    requires
        stack.len() > 0,
    ensures
        frames(stack.drop_last()) == frames(stack).drop_last(),
        frames(stack).last() == stack.last()@,
{
    assert(frames(stack.drop_last()) =~= frames(stack).drop_last());
}

impl Repository {
    /// Whether every frame in the repository is well-formed.
    pub open spec fn wf(&self) -> bool {
        &&& frames_wf(self.data.undo@)
        &&& frames_wf(self.data.redo@)
        &&& self.data.current_transaction matches Some(t) ==> t.wf()
    }

    /// The repository with empty stacks and no open transaction.
    pub fn new() -> (r: Self)
        ensures
            r@ == (DataView { undo: Seq::empty(), redo: Seq::empty(), current: None }),
            r.wf(),
    {
        let r = Repository {
            data: Data { undo: Vec::new(), redo: Vec::new(), current_transaction: None },
        };
        proof {
            assert(frames(r.data.undo@) =~= Seq::empty());
            assert(frames(r.data.redo@) =~= Seq::empty());
        }
        r
    }

    /// The open transaction, if there is one.
    pub fn current_transaction(&self) -> (r: Option<&Transaction>)
        ensures
            r is Some <==> self@.current is Some,
            r matches Some(t) ==> Some(*t) == self.data.current_transaction,
    {
        self.data.current_transaction.as_ref()
    }

    /// Opens a transaction called `name`, and answers `Ok`; or, where one is
    /// open already, gives that one `name` as a secondary name, and answers
    /// `Err`.
    pub fn open_transaction(&mut self, name: String) -> (r: Result<(), ()>)
        requires
            old(self).wf(),
        ensures
            final(self).wf(),
            final(self)@ == old(self)@.opened(name),
            r is Ok <==> old(self)@.current is None,
    {
        match self.data.current_transaction.take() {
            Some(ongoing) => {
                let mut ongoing = ongoing;
                ongoing.frame.add_secondary_name(name);
                self.data.current_transaction = Some(ongoing);
                Err(())
            },
            None => {
                self.data.current_transaction = Some(Transaction::new(name));
                Ok(())
            },
        }
    }

    /// Opens a transaction that is ignored from the start. Where one is
    /// open already, that one is not ignored: it gets `name` as a secondary
    /// name, and the answer is `Err`.
    pub fn open_ignored_transaction(&mut self, name: String) -> (r: Result<(), ()>)
        requires
            old(self).wf(),
        ensures
            final(self).wf(),
            r is Ok <==> old(self)@.current is None,
            r is Ok ==> final(self)@ == old(self)@.opened(name).ignoring_current(),
            r is Err ==> final(self)@ == old(self)@.opened(name),
    {
        let opened = self.open_transaction(name);
        if opened.is_ok() {
            self.ignore_current();
        }
        opened
    }

    /// Opens a transaction that is ignored; where one is open already, that
    /// one is ignored from now on.
    pub fn open_ignored_transaction_or_ignore_current(&mut self, name: String)
        requires
            old(self).wf(),
        ensures
            final(self).wf(),
            final(self)@ == old(self)@.opened(name).ignoring_current(),
    {
        let _ = self.open_ignored_transaction(name);
        self.ignore_current();
    }

    /// Marks the open transaction, if there is one, as ignored.
    pub fn ignore_current(&mut self)
        ensures
            final(self)@ == old(self)@.ignoring_current(),
            final(self).wf() == old(self).wf(),
    {
        match self.data.current_transaction.take() {
            Some(t) => {
                let mut t = t;
                t.ignore();
                self.data.current_transaction = Some(t);
            },
            None => {},
        }
    }

    /// Makes `frame` the latest that can be undone. Nothing can be redone
    /// after that.
    pub fn new_undo_frame(&mut self, frame: Frame)
        requires
            old(self).wf(),
            frame.wf(),
        ensures
            final(self).wf(),
            final(self)@ == old(self)@.with_undo_frame(frame@),
    {
        self.push_to(Stack::Undo, frame);
        self.clear(Stack::Redo)
    }

    /// Closes the open transaction. Its frame becomes the latest that can
    /// be undone, unless the transaction was ignored or stored nothing.
    pub fn close_transaction(&mut self)
        requires
            old(self).wf(),
        ensures
            final(self).wf(),
            final(self)@ == old(self)@.closed(),
    {
        match self.data.current_transaction.take() {
            Some(transaction) => {
                if transaction.frame.snapshots.len() > 0 && !transaction.ignored {
                    self.new_undo_frame(transaction.frame);
                }
            },
            None => {},
        }
    }

    /// Makes sure that a transaction is open: where none is, one called
    /// `name` is opened; the one that is open gets `name` as a secondary
    /// name.
    pub fn transaction(&mut self, name: String)
        requires
            old(self).wf(),
        ensures
            final(self).wf(),
            final(self)@ == old(self)@.opened(name),
            final(self)@.current is Some,
    {
        let _ = self.open_transaction(name);
    }

    /// The frames of a stack, oldest first.
    pub fn borrow(&self, stack: Stack) -> (r: &Vec<Frame>)
        ensures
            frames(r@) == self@.stack(stack),
            self.wf() ==> frames_wf(r@),
    {
        match stack {
            Stack::Undo => &self.data.undo,
            Stack::Redo => &self.data.redo,
        }
    }

    /// Puts `frame` on a stack.
    pub fn push_to(&mut self, stack: Stack, frame: Frame)
        requires
            old(self).wf(),
            frame.wf(),
        ensures
            final(self).wf(),
            final(self)@ == old(self)@.with_stack(stack, old(self)@.stack(stack).push(frame@)),
    {
        proof {
            lemma_frames_push(self.data.undo@, frame);
            lemma_frames_push(self.data.redo@, frame);
        }
        match stack {
            Stack::Undo => self.data.undo.push(frame),
            Stack::Redo => self.data.redo.push(frame),
        }
    }

    /// Empties a stack.
    pub fn clear(&mut self, stack: Stack)
        requires
            old(self).wf(),
        ensures
            final(self).wf(),
            final(self)@ == old(self)@.with_stack(stack, Seq::empty()),
    {
        match stack {
            Stack::Undo => self.data.undo.clear(),
            Stack::Redo => self.data.redo.clear(),
        }
        proof {
            assert(frames(Seq::<Frame>::empty()) =~= Seq::<FrameView>::empty());
        }
    }

    /// Empties both stacks.
    pub fn clear_all(&mut self)
        requires
            old(self).wf(),
        ensures
            final(self).wf(),
            final(self)@ == (DataView { undo: Seq::empty(), redo: Seq::empty(), ..old(self)@ }),
    {
        self.clear(Stack::Undo);
        self.clear(Stack::Redo);
    }

    /// A copy of the latest frame of a stack, which stays where it is; an
    /// error for an empty stack.
    pub fn last(&self, stack: Stack) -> (r: Result<Frame, NoActionToUndo>)
        requires
            self.wf(),
        ensures
            r is Ok <==> self@.stack(stack).len() > 0,
            r matches Ok(frame) ==> frame@ == self@.stack(stack).last() && frame.wf(),
    {
        let frames = self.borrow(stack);
        if frames.len() == 0 {
            Err(NoActionToUndo)
        } else {
            proof {
                lemma_frames_drop_last(frames@);
            }
            Ok(frames[frames.len() - 1].clone())
        }
    }

    /// Takes the latest frame off a stack; an error, which names the stack,
    /// for an empty one.
    pub fn pop(&mut self, stack: Stack) -> (r: Result<Frame, NoFrameToPop>)
        requires
            old(self).wf(),
        ensures
            final(self).wf(),
            old(self)@.stack(stack).len() == 0 ==> r == Err::<Frame, NoFrameToPop>(
                NoFrameToPop(stack),
            ) && final(self)@ == old(self)@,
            old(self)@.stack(stack).len() > 0 ==> r is Ok && r->Ok_0@ == old(self)@.stack(
                stack,
            ).last() && r->Ok_0.wf() && final(self)@ == old(self)@.with_stack(
                stack,
                old(self)@.stack(stack).drop_last(),
            ),
    {
        proof {
            if self.data.undo@.len() > 0 {
                lemma_frames_drop_last(self.data.undo@);
            }
            if self.data.redo@.len() > 0 {
                lemma_frames_drop_last(self.data.redo@);
            }
        }
        let popped = match stack {
            Stack::Undo => self.data.undo.pop(),
            Stack::Redo => self.data.redo.pop(),
        };
        match popped {
            Some(frame) => Ok(frame),
            None => Err(NoFrameToPop(stack)),
        }
    }

    /// The number of frames on a stack.
    pub fn len(&self, stack: Stack) -> (r: usize)
        ensures
            r == self@.stack(stack).len(),
    {
        self.borrow(stack).len()
    }

    /// Takes the open transaction out of the repository and marks it as
    /// ignored. No transaction is open after that.
    pub fn abort_current_transaction(&mut self) -> (r: Option<Transaction>)
        ensures
            final(self)@ == (DataView { current: None, ..old(self)@ }),
            old(self).wf() ==> final(self).wf(),
            r is Some <==> old(self)@.current is Some,
            r matches Some(t) ==> t@ == (TransactionView {
                ignored: true,
                ..old(self)@.current->Some_0
            }) && (old(self).wf() ==> t.wf()),
    {
        match self.data.current_transaction.take() {
            Some(t) => {
                let mut t = t;
                t.ignore();
                Some(t)
            },
            None => None,
        }
    }
}


/// Something that has an undo-redo repository.
pub trait Aware {
    /// The repository, as it is.
    spec fn repository(&self) -> Repository;

    /// The repository, to work on.
    fn undo_redo_repository(&mut self) -> (r: &mut Repository)
        ensures
            *r == old(self).repository(),
            final(self).repository() == *final(r),
    ;

    /// Makes sure that a transaction is open: where none is, one called
    /// `name` is opened; the one that is open gets `name` as a secondary
    /// name.
    fn get_or_open_transaction(&mut self, name: String)
        requires
            old(self).repository().wf(),
        ensures
            final(self).repository().wf(),
            final(self).repository()@ == old(self).repository()@.opened(name),
    {
        self.undo_redo_repository().transaction(name)
    }
}

/// An undo or a redo that was begun and waits for the modules to be
/// restored.
#[derive(Debug, Clone, Copy, PartialEq, Eq, Structural)]
pub enum Pending {
    /// An undo.
    Undo,
    /// A redo; `opened` says whether it opened the transaction under which
    /// the modules are restored, or found one open.
    Redo { opened: bool },
}

/// Undoes and redoes the latest actions. It has the repository and knows
/// which modules are open.
#[derive(Debug)]
pub struct Manager {
    /// The undo and redo stacks.
    pub repository: Repository,
    /// The modules that are open; none twice.
    pub modules: Vec<u64>,
    /// The undo or redo that is under way.
    pub pending: Option<Pending>,
}

/// The first module with a snapshot in `snapshots`, from `from` on, that is
/// not among `open`.
pub open spec fn first_missing(snapshots: Seq<(u64, String)>, open: Seq<u64>, from: int) -> Option<
    u64,
>
    decreases snapshots.len() - from,
{
    if from < 0 || from >= snapshots.len() {
        None
    } else if !open.contains(snapshots[from].0) {
        Some(snapshots[from].0)
    } else {
        first_missing(snapshots, open, from + 1)
    }
}

/// The transaction under which an undo restores the modules.
pub open spec fn is_faux_transaction(t: TransactionView) -> bool {
    &&& t.ignored
    &&& t.frame == FrameView::named(t.frame.name)
    &&& t.frame.name@ == "Undo faux transaction"@
}

impl Manager {
    /// Whether the repository is well-formed and no module is listed twice.
    pub open spec fn wf(&self) -> bool {
        &&& self.repository.wf()
        &&& self.modules@.no_duplicates()
    }

    /// Whether the module `id` is open.
    pub open spec fn is_open(&self, id: u64) -> bool {
        self.modules@.contains(id)
    }

    /// The manager of an empty repository, with no module open.
    pub fn new() -> (r: Self)
        ensures
            r.wf(),
            r.repository@ == (DataView { undo: Seq::empty(), redo: Seq::empty(), current: None }),
            r.modules@.len() == 0,
            r.pending is None,
    {
        Manager { repository: Repository::new(), modules: Vec::new(), pending: None }
    }

    /// Where the module `id` stands in the list of open modules.
    pub fn position(&self, id: u64) -> (r: Option<usize>)
        ensures
            r is Some <==> self.is_open(id),
            r matches Some(i) ==> i < self.modules@.len() && self.modules@[i as int] == id,
    {
        let mut i: usize = 0;
        while i < self.modules.len()
            invariant
                0 <= i <= self.modules@.len(),
                forall|j: int| 0 <= j < i ==> self.modules@[j] != id,
            decreases self.modules@.len() - i,
        {
            if self.modules[i] == id {
                return Some(i);
            }
            i += 1;
        }
        None
    }

    /// Notes that the module `id` is open. Only open modules can be
    /// restored.
    pub fn module_opened(&mut self, id: u64)
        requires
            old(self).wf(),
        ensures
            final(self).wf(),
            final(self).repository == old(self).repository,
            final(self).pending == old(self).pending,
            forall|x: u64| final(self).is_open(x) == (old(self).is_open(x) || x == id),
    {
        if self.position(id).is_none() {
            self.modules.push(id);
            proof {
                let before = old(self).modules@;
                assert forall|x: u64| self.modules@.contains(x) == (before.contains(x) || x
                    == id) by {
                    if before.contains(x) {
                        let j = choose|j: int| 0 <= j < before.len() && before[j] == x;
                        assert(self.modules@[j] == x);
                    }
                    if x == id {
                        assert(self.modules@[before.len() as int] == x);
                    }
                }
            }
        }
    }

    /// Notes that the module `id` is open no more.
    pub fn module_closed(&mut self, id: u64)
        requires
            old(self).wf(),
        ensures
            final(self).wf(),
            final(self).repository == old(self).repository,
            final(self).pending == old(self).pending,
            forall|x: u64| final(self).is_open(x) == (old(self).is_open(x) && x != id),
    {
        match self.position(id) {
            Some(i) => {
                self.modules.remove(i);
                proof {
                    let before = old(self).modules@;
                    let after = self.modules@;
                    assert(after =~= before.remove(i as int));
                    assert forall|x: u64| after.contains(x) == (before.contains(x) && x
                        != id) by {
                        if after.contains(x) {
                            let j = choose|j: int| 0 <= j < after.len() && after[j] == x;
                            if j < i {
                                assert(before[j] == x);
                            } else {
                                assert(before[j + 1] == x);
                            }
                        }
                        if before.contains(x) && x != id {
                            let j = choose|j: int| 0 <= j < before.len() && before[j] == x;
                            if j < i {
                                assert(after[j] == x);
                            } else {
                                assert(after[j - 1] == x);
                            }
                        }
                    }
                }
            },
            None => {},
        }
    }

    /// Checks that every module whose content `frame` holds is open, so that
    /// the frame can be restored as a whole or not at all. The error names
    /// the first module that is not.
    pub fn reset_to(&self, frame: &Frame) -> (r: Result<(), MissingModuleHandle>)
        ensures
            r == match first_missing(frame@.snapshots, self.modules@, 0) {
                Some(id) => Err::<(), MissingModuleHandle>(MissingModuleHandle(id)),
                None => Ok::<(), MissingModuleHandle>(()),
            },
    {
        let mut i: usize = 0;
        while i < frame.snapshots.len()
            invariant
                0 <= i <= frame.snapshots@.len(),
                first_missing(frame@.snapshots, self.modules@, 0) == first_missing(
                    frame@.snapshots,
                    self.modules@,
                    i as int,
                ),
            decreases frame.snapshots@.len() - i,
        {
            let id = frame.snapshots[i].0;
            if self.position(id).is_none() {
                return Err(MissingModuleHandle(id));
            }
            i += 1;
        }
        Ok(())
    }

    /// Begins to undo the latest action: hands out a copy of the frame to
    /// which the modules are to be restored, and opens an ignored
    /// transaction for the time of the restoring, after it has aborted the
    /// transaction that was open. Call `undone` when the modules are
    /// restored.
    ///
    /// Nothing changes where there is nothing to undo. Where the frame holds
    /// a module that is not open, no transaction is open afterwards.
    pub fn undo(&mut self) -> (r: Result<Frame, UndoRedoError>)
        requires
            old(self).wf(),
        ensures
            final(self).wf(),
            final(self).modules == old(self).modules,
            final(self).repository@.undo == old(self).repository@.undo,
            final(self).repository@.redo == old(self).repository@.redo,
            old(self).repository@.undo.len() == 0 ==> r == Err::<Frame, UndoRedoError>(
                UndoRedoError::NoAction(NoActionToUndo),
            ) && final(self).repository@ == old(self).repository@ && final(self).pending == old(self).pending,
            old(self).repository@.undo.len() > 0 ==> match first_missing(
                old(self).repository@.undo.last().snapshots,
                old(self).modules@,
                0,
            ) {
                Some(id) => r == Err::<Frame, UndoRedoError>(
                    UndoRedoError::MissingModule(MissingModuleHandle(id)),
                ) && final(self).repository@.current is None && final(self).pending is None,
                None => r is Ok && r->Ok_0@ == old(self).repository@.undo.last()
                    && r->Ok_0.wf() && final(self).pending == Some(Pending::Undo) && final(self).repository@.current is Some && is_faux_transaction(
                    final(self).repository@.current->Some_0,
                ),
            },
    {
        let frame = match self.repository.last(Stack::Undo) {
            Ok(frame) => frame,
            Err(e) => {
                return Err(UndoRedoError::NoAction(e));
            },
        };
        let _ = self.repository.abort_current_transaction();
        let _ = self.repository.open_transaction("Undo faux transaction".to_string());
        self.repository.ignore_current();
        match self.reset_to(&frame) {
            Ok(()) => {
                self.pending = Some(Pending::Undo);
                Ok(frame)
            },
            Err(e) => {
                let _ = self.repository.abort_current_transaction();
                self.pending = None;
                Err(UndoRedoError::MissingModule(e))
            },
        }
    }

    /// Ends the undo that `undo` began, after the modules were restored: the
    /// frame that was undone leaves the undo stack, and what the transaction
    /// stored during the restoring becomes the latest frame to redo. The
    /// answer is `FauxTransactionLeaked` where that transaction is open no
    /// more; the undo stack has lost its frame then too.
    pub fn undone(&mut self) -> (r: Result<(), UndoRedoError>)
        requires
            old(self).wf(),
            old(self).pending == Some(Pending::Undo),
        ensures
            final(self).wf(),
            final(self).modules == old(self).modules,
            final(self).pending is None,
            final(self).repository@.current is None,
            final(self).repository@.undo == (if old(self).repository@.undo.len() > 0 {
                old(self).repository@.undo.drop_last()
            } else {
                old(self).repository@.undo
            }),
            match old(self).repository@.current {
                Some(t) => r is Ok && final(self).repository@.redo == old(self).repository@.redo.push(t.frame),
                None => r == Err::<(), UndoRedoError>(UndoRedoError::Leaked(FauxTransactionLeaked))
                    && final(self).repository@.redo == old(self).repository@.redo,
            },
    {
        self.pending = None;
        let _ = self.repository.pop(Stack::Undo);
        match self.repository.abort_current_transaction() {
            Some(transaction) => {
                self.repository.push_to(Stack::Redo, transaction.frame);
                Ok(())
            },
            None => Err(UndoRedoError::Leaked(FauxTransactionLeaked)),
        }
    }

    /// Begins to redo the action that was undone last: takes its frame off
    /// the redo stack and hands it out, and makes sure that an ignored
    /// transaction is open for the time of the restoring. Call `redone` when
    /// the modules are restored.
    ///
    /// Nothing changes where there is nothing to redo. Where the frame holds
    /// a module that is not open, the frame is lost, and the transaction is
    /// closed if this call opened it.
    pub fn redo(&mut self) -> (r: Result<Frame, UndoRedoError>)
        requires
            old(self).wf(),
        ensures
            final(self).wf(),
            final(self).modules == old(self).modules,
            final(self).repository@.undo == old(self).repository@.undo,
            old(self).repository@.redo.len() == 0 ==> r == Err::<Frame, UndoRedoError>(
                UndoRedoError::NoAction(NoActionToUndo),
            ) && final(self).repository@ == old(self).repository@ && final(self).pending == old(self).pending,
            old(self).repository@.redo.len() > 0 ==> {
                let frame = old(self).repository@.redo.last();
                let popped = DataView {
                    redo: old(self).repository@.redo.drop_last(),
                    ..old(self).repository@
                };
                let opened = old(self).repository@.current is None;
                match first_missing(frame.snapshots, old(self).modules@, 0) {
                    Some(id) => r == Err::<Frame, UndoRedoError>(
                        UndoRedoError::MissingModule(MissingModuleHandle(id)),
                    ) && final(self).pending is None && final(self).repository@.redo
                        == popped.redo && (opened ==> final(self).repository@.current is None),
                    None => r is Ok && r->Ok_0@ == frame && r->Ok_0.wf() && final(self).pending
                        == Some(Pending::Redo { opened }) && final(self).repository@
                        == popped.opened(r->Ok_0.name).ignoring_current(),
                }
            },
    {
        let frame = match self.repository.pop(Stack::Redo) {
            Ok(frame) => frame,
            Err(_) => {
                return Err(UndoRedoError::NoAction(NoActionToUndo));
            },
        };
        let opened = self.repository.open_transaction(frame.name.clone()).is_ok();
        self.repository.ignore_current();
        match self.reset_to(&frame) {
            Ok(()) => {
                self.pending = Some(Pending::Redo { opened });
                Ok(frame)
            },
            Err(e) => {
                if opened {
                    self.repository.close_transaction();
                }
                self.pending = None;
                Err(UndoRedoError::MissingModule(e))
            },
        }
    }

    /// Ends the redo that `redo` began, after the modules were restored:
    /// what the transaction stored during the restoring becomes the latest
    /// frame to undo. The transaction is closed if `redo` opened it.
    pub fn redone(&mut self)
        requires
            old(self).wf(),
            old(self).pending is Some,
            old(self).pending->Some_0 is Redo,
        ensures
            final(self).wf(),
            final(self).modules == old(self).modules,
            final(self).pending is None,
            final(self).repository@.redo == old(self).repository@.redo,
            match old(self).repository@.current {
                Some(t) => final(self).repository@.undo == old(self).repository@.undo.push(
                    t.frame,
                ),
                None => final(self).repository@.undo == old(self).repository@.undo,
            },
            final(self).repository@.current == (if old(self).pending->Some_0->opened {
                None
            } else {
                old(self).repository@.current
            }),
    {
        let opened = match self.pending {
            Some(Pending::Redo { opened }) => opened,
            _ => false,
        };
        self.pending = None;
        match self.repository.data.current_transaction.take() {
            Some(transaction) => {
                self.repository.push_to(Stack::Undo, transaction.frame.clone());
                if !opened {
                    self.repository.data.current_transaction = Some(transaction);
                }
            },
            None => {},
        }
    }
}

impl Aware for Manager {
    open spec fn repository(&self) -> Repository {
        self.repository
    }

    fn undo_redo_repository(&mut self) -> (r: &mut Repository) {
        &mut self.repository
    }
}

} // verus!
