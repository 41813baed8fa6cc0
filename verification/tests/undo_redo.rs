use tc::undo_redo::{
    Aware, Frame, Manager, MissingModuleHandle, NoActionToUndo, NoFrameToPop, Pending, Repository, Stack,
    Transaction, UndoRedoError,
};

fn s(text: &str) -> String {
    text.to_string()
}

#[test]
fn frame_keeps_the_first_snapshot() {
    let mut f = Frame::new(s("edit"));
    f.store_module_content(1, s("before"));
    f.store_module_content(1, s("later"));
    f.store_module_content(2, s("other"));
    assert_eq!(f.snapshots, vec![(1, s("before")), (2, s("other"))]);
    assert!(f.has_module(2));
    assert!(!f.has_module(3));
    f.add_secondary_name(s("again"));
    assert_eq!(f.secondary_names, vec![s("again")]);
    let g = f.clone();
    assert_eq!(g.name, "edit");
    assert_eq!(g.snapshots, f.snapshots);
    assert_eq!(g.secondary_names, f.secondary_names);
}

#[test]
fn transaction_basics() {
    let mut t = Transaction::new(s("move"));
    assert_eq!(t.name(), "move");
    assert!(!t.ignored);
    t.fill_content(4, s("x"));
    t.fill_content(4, s("y"));
    assert_eq!(t.frame.snapshots, vec![(4, s("x"))]);
    t.ignore();
    assert!(t.ignored);
}

#[test]
fn open_transaction_twice_adds_a_secondary_name() {
    let mut r = Repository::new();
    assert!(r.current_transaction().is_none());
    assert_eq!(r.open_transaction(s("first")), Ok(()));
    assert_eq!(r.open_transaction(s("second")), Err(()));
    let t = r.current_transaction().unwrap();
    assert_eq!(t.name(), "first");
    assert_eq!(t.frame.secondary_names, vec![s("second")]);
    assert!(!t.ignored);
    r.transaction(s("third"));
    assert_eq!(r.current_transaction().unwrap().frame.secondary_names.len(), 2);
}

#[test]
fn closing_a_transaction_makes_an_undo_frame() {
    let mut r = Repository::new();
    r.push_to(Stack::Redo, Frame::new(s("old redo")));
    r.transaction(s("edit"));
    r.data.current_transaction.as_mut().unwrap().fill_content(1, s("before"));
    r.close_transaction();
    assert!(r.current_transaction().is_none());
    assert_eq!(r.len(Stack::Undo), 1);
    assert_eq!(r.len(Stack::Redo), 0);
    assert_eq!(r.last(Stack::Undo).unwrap().name, "edit");
    assert_eq!(r.borrow(Stack::Undo).len(), 1);
}

#[test]
fn empty_and_ignored_transactions_leave_no_frame() {
    let mut r = Repository::new();
    r.transaction(s("empty"));
    r.close_transaction();
    assert_eq!(r.len(Stack::Undo), 0);
    assert_eq!(r.open_ignored_transaction(s("quiet")), Ok(()));
    assert!(r.current_transaction().unwrap().ignored);
    r.data.current_transaction.as_mut().unwrap().fill_content(1, s("before"));
    r.close_transaction();
    assert_eq!(r.len(Stack::Undo), 0);
    r.close_transaction();
    assert_eq!(r.len(Stack::Undo), 0);
}

#[test]
fn open_ignored_leaves_an_open_transaction_alone() {
    let mut r = Repository::new();
    r.transaction(s("user"));
    assert_eq!(r.open_ignored_transaction(s("quiet")), Err(()));
    assert!(!r.current_transaction().unwrap().ignored);
    r.open_ignored_transaction_or_ignore_current(s("quiet"));
    assert!(r.current_transaction().unwrap().ignored);
    let mut fresh = Repository::new();
    fresh.open_ignored_transaction_or_ignore_current(s("quiet"));
    assert!(fresh.current_transaction().unwrap().ignored);
    assert_eq!(fresh.current_transaction().unwrap().name(), "quiet");
}

#[test]
fn stacks_push_pop_clear() {
    let mut r = Repository::new();
    assert_eq!(r.last(Stack::Undo).err(), Some(NoActionToUndo));
    assert_eq!(r.pop(Stack::Redo).err(), Some(NoFrameToPop(Stack::Redo)));
    r.push_to(Stack::Undo, Frame::new(s("a")));
    r.push_to(Stack::Undo, Frame::new(s("b")));
    r.push_to(Stack::Redo, Frame::new(s("c")));
    assert_eq!(r.len(Stack::Undo), 2);
    assert_eq!(r.last(Stack::Undo).unwrap().name, "b");
    assert_eq!(r.len(Stack::Undo), 2);
    assert_eq!(r.pop(Stack::Undo).unwrap().name, "b");
    assert_eq!(r.len(Stack::Undo), 1);
    r.new_undo_frame(Frame::new(s("d")));
    assert_eq!(r.len(Stack::Redo), 0);
    assert_eq!(r.len(Stack::Undo), 2);
    r.push_to(Stack::Redo, Frame::new(s("e")));
    r.clear(Stack::Undo);
    assert_eq!(r.len(Stack::Undo), 0);
    assert_eq!(r.len(Stack::Redo), 1);
    r.clear_all();
    assert_eq!(r.len(Stack::Redo), 0);
}

#[test]
fn abort_takes_the_transaction_out() {
    let mut r = Repository::new();
    assert!(r.abort_current_transaction().is_none());
    r.transaction(s("user"));
    let t = r.abort_current_transaction().unwrap();
    assert!(t.ignored);
    assert_eq!(t.name(), "user");
    assert!(r.current_transaction().is_none());
}

fn edit(m: &mut Manager, name: &str, module: u64, before: &str) {
    m.repository.transaction(s(name));
    m.repository.data.current_transaction.as_mut().unwrap().fill_content(module, s(before));
    m.repository.close_transaction();
}

#[test]
fn undo_then_redo() {
    let mut m = Manager::new();
    m.module_opened(1);
    edit(&mut m, "first", 1, "v0");
    edit(&mut m, "second", 1, "v1");
    assert_eq!(m.repository.len(Stack::Undo), 2);

    // undo "second": the module goes back to v1, and v2 is kept for redo
    let frame = m.undo().unwrap();
    assert_eq!(frame.snapshots, vec![(1, s("v1"))]);
    assert_eq!(m.pending, Some(Pending::Undo));
    let faux = m.repository.current_transaction().unwrap();
    assert!(faux.ignored);
    assert_eq!(faux.name(), "Undo faux transaction");
    m.repository.data.current_transaction.as_mut().unwrap().fill_content(1, s("v2"));
    assert_eq!(m.undone(), Ok(()));
    assert_eq!(m.pending, None);
    assert!(m.repository.current_transaction().is_none());
    assert_eq!(m.repository.len(Stack::Undo), 1);
    assert_eq!(m.repository.len(Stack::Redo), 1);
    assert_eq!(m.repository.last(Stack::Redo).unwrap().snapshots, vec![(1, s("v2"))]);

    // redo it: the module goes to v2, and v1 is kept for undo
    let frame = m.redo().unwrap();
    assert_eq!(frame.snapshots, vec![(1, s("v2"))]);
    assert_eq!(m.pending, Some(Pending::Redo { opened: true }));
    assert!(m.repository.current_transaction().unwrap().ignored);
    m.repository.data.current_transaction.as_mut().unwrap().fill_content(1, s("v1"));
    m.redone();
    assert_eq!(m.pending, None);
    assert!(m.repository.current_transaction().is_none());
    assert_eq!(m.repository.len(Stack::Redo), 0);
    assert_eq!(m.repository.len(Stack::Undo), 2);
    assert_eq!(m.repository.last(Stack::Undo).unwrap().snapshots, vec![(1, s("v1"))]);
}

#[test]
fn undo_and_redo_with_nothing_to_do() {
    let mut m = Manager::new();
    assert_eq!(m.undo().err(), Some(UndoRedoError::NoAction(NoActionToUndo)));
    assert_eq!(m.redo().err(), Some(UndoRedoError::NoAction(NoActionToUndo)));
    assert_eq!(m.pending, None);
}

#[test]
fn undo_needs_the_modules_open() {
    let mut m = Manager::new();
    m.module_opened(1);
    m.module_opened(1);
    assert_eq!(m.modules, vec![1]);
    edit(&mut m, "first", 1, "v0");
    m.module_closed(1);
    m.module_closed(7);
    assert!(m.modules.is_empty());
    m.repository.transaction(s("user"));
    assert_eq!(
        m.undo().err(),
        Some(UndoRedoError::MissingModule(MissingModuleHandle(1)))
    );
    assert!(m.repository.current_transaction().is_none());
    assert_eq!(m.repository.len(Stack::Undo), 1);
    let frame = m.repository.last(Stack::Undo).unwrap();
    assert_eq!(m.reset_to(&frame), Err(MissingModuleHandle(1)));
    m.module_opened(1);
    assert_eq!(m.reset_to(&frame), Ok(()));
    assert_eq!(m.position(1), Some(0));
    assert_eq!(m.position(2), None);
}

#[test]
fn redo_loses_a_frame_it_cannot_restore() {
    let mut m = Manager::new();
    let mut f = Frame::new(s("gone"));
    f.store_module_content(5, s("text"));
    m.repository.push_to(Stack::Redo, f);
    assert_eq!(
        m.redo().err(),
        Some(UndoRedoError::MissingModule(MissingModuleHandle(5)))
    );
    assert_eq!(m.repository.len(Stack::Redo), 0);
    assert!(m.repository.current_transaction().is_none());
}

#[test]
fn undone_without_its_transaction_reports_the_leak() {
    let mut m = Manager::new();
    m.module_opened(1);
    edit(&mut m, "first", 1, "v0");
    m.undo().unwrap();
    let _ = m.repository.abort_current_transaction();
    assert_eq!(
        m.undone(),
        Err(UndoRedoError::Leaked(tc::undo_redo::FauxTransactionLeaked))
    );
    assert_eq!(m.repository.len(Stack::Undo), 0);
    assert_eq!(m.repository.len(Stack::Redo), 0);
}

#[test]
fn redo_under_an_open_transaction_leaves_it_open() {
    let mut m = Manager::new();
    m.module_opened(1);
    let mut f = Frame::new(s("again"));
    f.store_module_content(1, s("v2"));
    m.repository.push_to(Stack::Redo, f);
    m.repository.transaction(s("user"));
    m.redo().unwrap();
    assert_eq!(m.pending, Some(Pending::Redo { opened: false }));
    m.redone();
    let t = m.repository.current_transaction().unwrap();
    assert_eq!(t.name(), "user");
    assert!(t.ignored);
    assert_eq!(t.frame.secondary_names, vec![s("again")]);
    assert_eq!(m.repository.len(Stack::Undo), 1);
}

#[test]
fn aware_opens_or_joins_a_transaction() {
    let mut m = Manager::new();
    m.get_or_open_transaction(s("first"));
    m.get_or_open_transaction(s("second"));
    let t = m.undo_redo_repository().current_transaction().unwrap();
    assert_eq!(t.name(), "first");
    assert_eq!(t.frame.secondary_names, vec![s("second")]);
}

/// One module whose edits go through the manager, as an editor would make
/// them.
struct Project {
    urm: Manager,
    content: String,
}

const MODULE: u64 = 1;

impl Project {
    fn new(content: &str) -> Project {
        let mut urm = Manager::new();
        urm.module_opened(MODULE);
        Project { urm, content: s(content) }
    }

    fn keep_current_content(&mut self) {
        let before = self.content.clone();
        self.urm
            .repository
            .data
            .current_transaction
            .as_mut()
            .unwrap()
            .fill_content(MODULE, before);
    }

    fn edit(&mut self, name: &str, content: &str) {
        self.urm.repository.transaction(s(name));
        self.keep_current_content();
        self.content = s(content);
        self.urm.repository.close_transaction();
    }

    fn restore(&mut self, frame: &Frame) {
        for (_id, content) in &frame.snapshots {
            self.keep_current_content();
            self.content = content.clone();
        }
    }

    fn undo(&mut self) -> Result<(), UndoRedoError> {
        let frame = self.urm.undo()?;
        self.restore(&frame);
        self.urm.undone()
    }

    fn redo(&mut self) -> Result<(), UndoRedoError> {
        let frame = self.urm.redo()?;
        self.restore(&frame);
        self.urm.redone();
        Ok(())
    }
}

fn position(content: &str) -> Option<(f64, f64)> {
    let (x, y) = content.split_once(',')?;
    Some((x.parse().unwrap(), y.parse().unwrap()))
}

// Check that node position is properly updated.
#[test]
fn move_node() {
    let mut project = Project::new("");
    let pos1 = (500.0, 250.0);
    let pos2 = (300.0, 150.0);

    project.edit("set node position", "500,250");
    project.edit("set node position", "300,150");

    assert_eq!(position(&project.content), Some(pos2));
    project.undo().unwrap();
    assert_eq!(position(&project.content), Some(pos1));
    project.undo().unwrap();
    assert_eq!(position(&project.content), None);
    project.redo().unwrap();
    assert_eq!(position(&project.content), Some(pos1));
    project.redo().unwrap();
    assert_eq!(position(&project.content), Some(pos2));
}

#[test]
fn undo_redo() {
    let mut project = Project::new("main = \n    2 + 2");

    // Check initial state.
    assert_eq!(project.urm.repository.len(Stack::Undo), 0, "Undo stack not empty: {:?}", project.urm);
    assert_eq!(project.content, "main = \n    2 + 2");

    // Perform an action.
    project.edit("set expression", "main = \n    5 * 20");

    // We can undo action.
    assert_eq!(project.urm.repository.len(Stack::Undo), 1);
    assert_eq!(project.content, "main = \n    5 * 20");
    project.undo().unwrap();
    assert_eq!(project.content, "main = \n    2 + 2");

    // We cannot undo more actions than we made.
    assert_eq!(project.urm.repository.len(Stack::Undo), 0);
    assert!(project.undo().is_err());
    assert_eq!(project.content, "main = \n    2 + 2");

    // We can redo since we undid.
    project.redo().unwrap();
    assert_eq!(project.content, "main = \n    5 * 20");

    // And we can undo once more.
    project.undo().unwrap();
    assert_eq!(project.content, "main = \n    2 + 2");

    // We cannot redo after edit has been made.
    project.edit("set expression", "main = \n    4 * 20");
    assert!(project.redo().is_err());
}
