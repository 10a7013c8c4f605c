use vstd::prelude::*;

use crate::model::{FileTree, NodeId, NodeKind};
use crate::text::push_str;
use crate::terminal::Key;

verus! {

/// Which pane receives the arrow keys.
#[derive(Debug, Clone, Copy, PartialEq, Eq, Structural)]
pub enum Focus {
    MapPane,
    List,
}

/// Outside work that a key press asks the caller to do.
#[derive(Debug)]
pub enum KeyAction {
    /// Nothing to do.
    Nothing,
    /// Scan the root path again and hand the result to [`App::rescan`].
    Rescan,
    /// Open this path with the system opener and hand the outcome to
    /// [`App::open_selected`].
    Open(String),
}

/// The explorer's state: the scanned tree, the directory on display and the
/// selected entry.
pub struct App {
    pub tree: FileTree,
    pub root_path: String,
    pub view_root: NodeId,
    pub selected: NodeId,
    pub focus: Focus,
    pub show_help: bool,
    pub should_quit: bool,
    pub message: String,
}

/// The first position of `x` in `s`, if any.
pub open spec fn position_of(s: Seq<NodeId>, x: NodeId) -> Option<int> {
    if s.contains(x) {
        Some(choose|i: int| 0 <= i < s.len() && s[i] == x && forall|j: int| 0 <= j < i ==> s[j] != x)
    } else {
        None
    }
}

/// The first position of an item is where the item stands, with no earlier
/// occurrence.
pub proof fn lemma_position_of(s: Seq<NodeId>, x: NodeId)
    ensures
        position_of(s, x) matches Some(i) ==> 0 <= i < s.len() && s[i] == x && forall|j: int|
            0 <= j < i ==> s[j] != x,
        position_of(s, x) is None ==> !s.contains(x),
{
    if s.contains(x) {
        let k = choose|k: int| 0 <= k < s.len() && s[k] == x;
        lemma_first_occurrence(s, x, k);
    }
}

proof fn lemma_first_occurrence(s: Seq<NodeId>, x: NodeId, k: int)
    requires
        0 <= k < s.len(),
        s[k] == x,
    ensures
        exists|i: int| 0 <= i < s.len() && s[i] == x && forall|j: int| 0 <= j < i ==> s[j] != x,
    decreases k,
{
    if exists|j: int| 0 <= j < k && s[j] == x {
        let j = choose|j: int| 0 <= j < k && s[j] == x;
        lemma_first_occurrence(s, x, j);
    } else {
        assert(forall|j: int| 0 <= j < k ==> s[j] != x);
    }
}

/// `v` kept between `lo` and `hi`.
pub open spec fn clamp(v: int, lo: int, hi: int) -> int {
    if v < lo {
        lo
    } else if v > hi {
        hi
    } else {
        v
    }
}

impl App {
    /// Ids in the state name nodes of the tree.
    pub open spec fn valid(&self) -> bool {
        &&& self.tree.ids_valid()
        &&& self.tree.valid_id(self.view_root)
        &&& self.tree.valid_id(self.selected)
    }

    /// The selection is one of the displayed children, or the displayed
    /// directory itself when it has none.
    pub open spec fn selection_ok(&self) -> bool {
        let cs = self.tree.child_list(self.view_root);
        &&& cs.len() > 0 ==> cs.contains(self.selected)
        &&& cs.len() == 0 ==> self.selected == self.view_root
    }

    /// The children of the displayed directory, in display order.
    pub open spec fn children_view(&self) -> Seq<NodeId> {
        self.tree.sorted_children(self.view_root)
    }

    /// `next` equals `self` except, perhaps, for the message.
    pub open spec fn same_but_message(&self, next: &App) -> bool {
        &&& next.tree == self.tree
        &&& next.root_path == self.root_path
        &&& next.view_root == self.view_root
        &&& next.selected == self.selected
        &&& next.focus == self.focus
        &&& next.show_help == self.show_help
        &&& next.should_quit == self.should_quit
    }

    /// Moving the selection `delta` places through the displayed children,
    /// stopping at either end; an empty listing selects the directory.
    pub open spec fn select_step(&self, next: &App, delta: int) -> bool {
        let cs = self.children_view();
        let target = if cs.len() == 0 {
            self.view_root
        } else {
            let cur = match position_of(cs, self.selected) {
                Some(i) => i,
                None => 0,
            };
            cs[clamp(cur + delta, 0, cs.len() - 1)]
        };
        *next == App { selected: target, ..*self }
    }

    /// Entering the selected directory, whose first child becomes selected;
    /// anything else only gets a message.
    pub open spec fn drill_step(&self, next: &App) -> bool {
        let node = self.tree.node(self.selected);
        if node.kind != NodeKind::Directory {
            &&& self.same_but_message(next)
            &&& next.message@ == node.name@ + " is not a directory"@
        } else {
            let cs = self.tree.sorted_children(self.selected);
            &&& next.tree == self.tree
            &&& next.root_path == self.root_path
            &&& next.view_root == self.selected
            &&& next.selected == (if cs.len() > 0 { cs[0] } else { self.selected })
            &&& next.focus == self.focus
            &&& next.show_help == self.show_help
            &&& next.should_quit == self.should_quit
            &&& next.message@ == "drilled in"@
        }
    }

    /// Going up to the parent of the displayed directory, which becomes
    /// the selection; at the root only a message changes.
    pub open spec fn parent_step(&self, next: &App) -> bool {
        match self.tree.node(self.view_root).parent {
            Some(p) => {
                &&& next.tree == self.tree
                &&& next.root_path == self.root_path
                &&& next.view_root == p
                &&& next.selected == self.view_root
                &&& next.focus == self.focus
                &&& next.show_help == self.show_help
                &&& next.should_quit == self.should_quit
                &&& next.message@ == "went to parent"@
            },
            None => {
                &&& self.same_but_message(next)
                &&& next.message@ == "already at scan root"@
            },
        }
    }

    /// What one key press does to the state, and the outside work it asks for.
    pub open spec fn key_step(&self, next: &App, key: Key, action: KeyAction) -> bool {
        if key == Key::Char('q') || key == Key::Esc {
            &&& *next == App { should_quit: true, ..*self }
            &&& action is Nothing
        } else if key == Key::Char('?') {
            &&& *next == App { show_help: !self.show_help, ..*self }
            &&& action is Nothing
        } else if key == Key::Tab {
            &&& *next == App {
                focus: if self.focus == Focus::MapPane { Focus::List } else { Focus::MapPane },
                ..*self
            }
            &&& action is Nothing
        } else if key == Key::Up || key == Key::Left {
            &&& self.select_step(next, -1)
            &&& action is Nothing
        } else if key == Key::Down || key == Key::Right {
            &&& self.select_step(next, 1)
            &&& action is Nothing
        } else if key == Key::Enter {
            &&& self.drill_step(next)
            &&& action is Nothing
        } else if key == Key::Backspace {
            &&& self.parent_step(next)
            &&& action is Nothing
        } else if key == Key::Char('r') {
            &&& *next == *self
            &&& action is Rescan
        } else if key == Key::Char('o') {
            &&& *next == *self
            &&& action matches KeyAction::Open(path) && path@ == self.tree.node(self.selected).path@
        } else if key == Key::Char('d') {
            &&& self.same_but_message(next)
            &&& next.message@ == "delete is intentionally not implemented yet; use your file manager"@
            &&& action is Nothing
        } else {
            &&& *next == *self
            &&& action is Nothing
        }
    }

    /// An explorer showing the root of `tree`, with its first child selected.
    pub fn new(tree: FileTree, root_path: String) -> (app: Self)
        requires
            tree.ids_valid(),
        ensures
            app.valid(),
            app.tree == tree,
            app.root_path == root_path,
            app.view_root == tree.root_id(),
            app.selected == (if tree.sorted_children(tree.root_id()).len() > 0 {
                tree.sorted_children(tree.root_id())[0]
            } else {
                tree.root_id()
            }),
            app.focus == Focus::List,
            !app.show_help,
            !app.should_quit,
            app.message@ == "ready"@,
            tree.wf() ==> app.selection_ok(),
    {
        proof {
            tree.lemma_sorted_children(tree.root_id());
        }
        let root = tree.root();
        let children = tree.children_sorted(root);
        let selected = if children.len() > 0 {
            children[0]
        } else {
            root
        };
        proof {
            if children.len() > 0 {
                assert(children@.contains(children@[0]));
            } else if tree.child_list(root).len() > 0 {
                assert(children@.contains(tree.child_list(root)[0]));
            }
        }
        App {
            tree,
            root_path,
            view_root: root,
            selected,
            focus: Focus::List,
            show_help: false,
            should_quit: false,
            message: String::from_str("ready"),
        }
    }

    /// Applies one key press; the result names any outside work to do.
    pub fn handle_key(&mut self, key: Key) -> (action: KeyAction)
        requires
            old(self).valid(),
        ensures
            old(self).key_step(final(self), key, action),
            final(self).valid(),
    {
        match key {
            Key::Char('q') | Key::Esc => {
                self.should_quit = true;
            },
            Key::Char('?') => {
                self.show_help = !self.show_help;
            },
            Key::Tab => {
                self.focus = match self.focus {
                    Focus::MapPane => Focus::List,
                    Focus::List => Focus::MapPane,
                };
            },
            Key::Up => self.select_delta(-1),
            Key::Down => self.select_delta(1),
            Key::Left => self.select_delta(-1),
            Key::Right => self.select_delta(1),
            Key::Enter => self.drill_in(),
            Key::Backspace => self.go_parent(),
            Key::Char('r') => {
                return KeyAction::Rescan;
            },
            Key::Char('o') => {
                return KeyAction::Open(self.tree.get(self.selected).path.clone());
            },
            Key::Char('d') => {
                self.message = String::from_str(
                    "delete is intentionally not implemented yet; use your file manager",
                );
            },
            _ => {},
        }
        KeyAction::Nothing
    }

    /// The children of the displayed directory, largest first.
    pub fn visible_children(&self) -> (r: Vec<NodeId>)
        requires
            self.valid(),
        ensures
            r@ == self.children_view(),
            forall|j: int| 0 <= j < r@.len() ==> (#[trigger] r@[j]).0 < self.tree.len(),
    {
        self.tree.children_sorted(self.view_root)
    }

    /// Where the selection stands among the displayed children.
    pub fn selected_index(&self) -> (r: Option<usize>)
        requires
            self.valid(),
        ensures
            match position_of(self.children_view(), self.selected) {
                Some(i) => r == Some(i as usize),
                None => r is None,
            },
    {
        let children = self.visible_children();
        Self::position_in(&children, self.selected)
    }

    fn position_in(children: &Vec<NodeId>, target: NodeId) -> (r: Option<usize>)
        ensures
            match position_of(children@, target) {
                Some(i) => r == Some(i as usize),
                None => r is None,
            },
            r matches Some(i) ==> i < children@.len() && children@[i as int] == target,
    {
        let mut i: usize = 0;
        while i < children.len()
            invariant
                i <= children.len(),
                forall|j: int| 0 <= j < i ==> children@[j] != target,
            decreases children.len() - i,
        {
            if children[i] == target {
                proof {
                    let s = children@;
                    assert(s.contains(target));
                    let k = choose|k: int| 0 <= k < s.len() && s[k] == target && forall|j: int| 0 <= j < k ==> s[j] != target;
                    if k < i {
                    } else if k > i {
                    }
                    assert(k == i);
                }
                return Some(i);
            }
            i = i + 1;
        }
        None
    }

    fn select_delta(&mut self, delta: isize)
        requires
            old(self).valid(),
            -1 <= delta <= 1,
        ensures
            old(self).select_step(final(self), delta as int),
            final(self).valid(),
    {
        let children = self.visible_children();
        if children.len() == 0 {
            self.selected = self.view_root;
            return;
        }
        proof {
            lemma_position_of(children@, self.selected);
        }
        let current = match Self::position_in(&children, self.selected) {
            Some(i) => i,
            None => 0,
        };
        let last = children.len() - 1;
        let next = if delta < 0 && current == 0 {
            0
        } else if delta < 0 {
            current - 1
        } else if delta > 0 && current >= last {
            last
        } else if delta > 0 {
            current + 1
        } else if current > last {
            last
        } else {
            current
        };
        proof {
            let cs = old(self).children_view();
            let cur: int = match position_of(cs, old(self).selected) {
                Some(i) => i,
                None => 0,
            };
            assert(cur == current as int);
            assert(next as int == clamp(cur + delta as int, 0, cs.len() - 1));
        }
        self.selected = children[next];
    }

    fn drill_in(&mut self)
        requires
            old(self).valid(),
        ensures
            old(self).drill_step(final(self)),
            final(self).valid(),
    {
        let selected = self.tree.get(self.selected);
        if selected.kind != NodeKind::Directory {
            let mut message = selected.name.clone();
            push_str(&mut message, " is not a directory");
            self.message = message;
            return;
        }
        self.view_root = self.selected;
        let children = self.tree.children_sorted(self.view_root);
        self.selected = if children.len() > 0 {
            children[0]
        } else {
            self.view_root
        };
        self.message = String::from_str("drilled in");
    }

    fn go_parent(&mut self)
        requires
            old(self).valid(),
        ensures
            old(self).parent_step(final(self)),
            final(self).valid(),
    {
        if let Some(parent) = self.tree.get(self.view_root).parent {
            self.selected = self.view_root;
            self.view_root = parent;
            self.message = String::from_str("went to parent");
        } else {
            self.message = String::from_str("already at scan root");
        }
    }

    /// Takes the outcome of scanning the root path again: a fresh tree
    /// restarts the explorer, an error is reported in the message.
    pub fn rescan(&mut self, outcome: Result<FileTree, String>)
        requires
            old(self).valid(),
            outcome matches Ok(t) ==> t.ids_valid(),
        ensures
            final(self).valid(),
            match outcome {
                Ok(t) => {
                    &&& final(self).tree == t
                    &&& final(self).root_path == old(self).root_path
                    &&& final(self).view_root == t.root_id()
                    &&& final(self).selected == (if t.sorted_children(t.root_id()).len() > 0 {
                        t.sorted_children(t.root_id())[0]
                    } else {
                        t.root_id()
                    })
                    &&& final(self).focus == Focus::List
                    &&& !final(self).show_help
                    &&& !final(self).should_quit
                    &&& final(self).message@ == "rescan complete"@
                    &&& t.wf() ==> final(self).selection_ok()
                },
                Err(e) => {
                    &&& old(self).same_but_message(final(self))
                    &&& final(self).message@ == "rescan failed: "@ + e@
                },
            },
    {
        match outcome {
            Ok(tree) => {
                let root_path = self.root_path.clone();
                *self = Self::new(tree, root_path);
                self.message = String::from_str("rescan complete");
            },
            Err(error) => {
                let mut message = String::from_str("rescan failed: ");
                push_str(&mut message, error.as_str());
                self.message = message;
            },
        }
    }

    /// Takes the outcome of opening the selected path with the system
    /// opener and reports it in the message.
    pub fn open_selected(&mut self, outcome: Result<(), String>)
        requires
            old(self).valid(),
        ensures
            final(self).valid(),
            old(self).same_but_message(final(self)),
            match outcome {
                Ok(_) => final(self).message@ == "opened "@ + old(self).tree.node(old(self).selected).path@,
                Err(e) => final(self).message@ == "open failed: "@ + e@,
            },
    {
        match outcome {
            Ok(_) => {
                let mut message = String::from_str("opened ");
                push_str(&mut message, self.tree.get(self.selected).path.as_str());
                self.message = message;
            },
            Err(error) => {
                let mut message = String::from_str("open failed: ");
                push_str(&mut message, error.as_str());
                self.message = message;
            },
        }
    }
}
/// Every key press keeps the tree a tree and the selection among the
/// displayed children, or on the displayed directory when it has none.
pub proof fn lemma_key_keeps_selection(a: App, b: App, key: Key, action: KeyAction)
    requires
        a.valid(),
        a.tree.wf(),
        a.selection_ok(),
        a.key_step(&b, key, action),
    ensures
        b.tree.wf(),
        b.selection_ok(),
{
    a.tree.lemma_sorted_children(a.view_root);
    a.tree.lemma_sorted_children(a.selected);
    if key == Key::Up || key == Key::Left || key == Key::Down || key == Key::Right {
        let cs = a.children_view();
        if cs.len() > 0 {
            let d: int = if key == Key::Up || key == Key::Left { -1 } else { 1 };
            let cur = match position_of(cs, a.selected) {
                Some(i) => i,
                None => 0,
            };
            lemma_position_of(cs, a.selected);
            assert(cs.contains(cs[clamp(cur + d, 0, cs.len() - 1)]));
        } else {
            if a.tree.child_list(a.view_root).len() > 0 {
                assert(cs.contains(a.tree.child_list(a.view_root)[0]));
            }
        }
    } else if key == Key::Enter {
        let cs = a.tree.sorted_children(a.selected);
        if a.tree.node(a.selected).kind == NodeKind::Directory {
            if cs.len() > 0 {
                assert(cs.contains(cs[0]));
            } else if a.tree.child_list(a.selected).len() > 0 {
                assert(cs.contains(a.tree.child_list(a.selected)[0]));
            }
        }
    } else if key == Key::Backspace {
        match a.tree.node(a.view_root).parent {
            Some(p) => {
                assert(a.tree.nodes()[a.view_root.0 as int].parent == Some(p));
                assert(NodeId(a.view_root.0 as int as usize) == a.view_root);
            },
            None => {},
        }
    }
}

/// Switching focus twice gives back the state one started from.
pub proof fn lemma_tab_twice(a: App, b: App, c: App, x: KeyAction, y: KeyAction)
    requires
        a.key_step(&b, Key::Tab, x),
        b.key_step(&c, Key::Tab, y),
    ensures
        c == a,
{
}

/// Entering a selected child directory and then going to the parent shows
/// the directory one started from, with that child selected again.
pub proof fn lemma_drill_then_parent(a: App, b: App, c: App)
    requires
        a.valid(),
        a.tree.wf(),
        a.selection_ok(),
        a.selected != a.view_root,
        a.tree.node(a.selected).kind == NodeKind::Directory,
        a.drill_step(&b),
        b.parent_step(&c),
    ensures
        c.view_root == a.view_root,
        c.selected == a.selected,
        c.tree == a.tree,
{
    let cs = a.tree.child_list(a.view_root);
    assert(cs.contains(a.selected));
    let k = choose|k: int| 0 <= k < cs.len() && cs[k] == a.selected;
    assert(a.tree.nodes()[a.view_root.0 as int].children@[k] == a.selected);
}

} // verus!
