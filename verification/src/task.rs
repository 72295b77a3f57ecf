use vstd::prelude::*;

verus! {

/// The mathematical view of one task: its id as an unbounded natural
/// number, its title as a sequence of characters, and its completion
/// flag.
#[verifier::ext_equal]
pub struct TaskView {
    pub id: nat,
    pub title: Seq<char>,
    pub completed: bool,
}

/// `t` with its completion flag set, everything else unchanged.
pub open spec fn set_done(t: TaskView) -> TaskView {
    TaskView { completed: true, ..t }
}

/// Some task in `s` carries the id `id`.
pub open spec fn has_id(s: Seq<TaskView>, id: nat) -> bool {
    exists|i: int| 0 <= i < s.len() && s[i].id == id
}

/// `i` is the position of the first task in `s` whose id is `id`.
pub open spec fn first_match_at(s: Seq<TaskView>, id: nat, i: int) -> bool {
    &&& 0 <= i < s.len()
    &&& s[i].id == id
    &&& forall|j: int| 0 <= j < i ==> s[j].id != id
}

/// One todo entry: an id, a free-form title, and a flag that records
/// whether the task has been completed.
#[derive(Debug)]
pub struct TodoItem {
    pub id: usize,
    pub title: String,
    pub completed: bool,
}

impl View for TodoItem {
    type V = TaskView;

    open spec fn view(&self) -> TaskView {
        TaskView { id: self.id as nat, title: self.title@, completed: self.completed }
    }
}

/// The ordered list of tasks. Insertion order is preserved and is the
/// display order; ids are assigned as `length + 1` at add time.
#[derive(Debug)]
pub struct TodoList {
    pub items: Vec<TodoItem>,
}

impl View for TodoList {
    type V = Seq<TaskView>;

    open spec fn view(&self) -> Seq<TaskView> {
        self.items@.map_values(|t: TodoItem| t@)
    }
}

impl TodoList {
    /// A fresh, empty list.
    pub fn new() -> (r: Self)
        ensures
            r@ == Seq::<TaskView>::empty(),
    {
        let r = TodoList { items: Vec::new() };
        proof {
            assert(r@ =~= Seq::<TaskView>::empty());
        }
        r
    }

    /// Appends a new task titled `title`, with id `length + 1` and the
    /// completion flag clear, and returns the new task. Earlier entries
    /// are left exactly as they were.
    pub fn add(&mut self, title: String) -> (t: TodoItem)
        requires
            old(self)@.len() < usize::MAX,
        ensures
            t@ == (TaskView {
                id: (old(self)@.len() + 1) as nat,
                title: title@,
                completed: false,
            }),
            final(self)@ == old(self)@.push(t@),
            final(self)@.len() == old(self)@.len() + 1,
            forall|i: int| 0 <= i < old(self)@.len() ==> final(self)@[i] == old(self)@[i],
    {
        let id = self.items.len() + 1;
        let ghost prev = self@;
        let stored = TodoItem { id, title: title.clone(), completed: false };
        let t = TodoItem { id, title, completed: false };
        proof {
            assert(stored@ =~= t@);
        }
        self.items.push(stored);
        proof {
            assert(self@ =~= prev.push(t@));
        }
        t
    }

    /// Marks the first task whose id is `id` as completed and reports
    /// whether one was found; on a miss the list is unchanged.
    pub fn complete(&mut self, id: usize) -> (r: bool)
        ensures
            r == has_id(old(self)@, id as nat),
            !r ==> final(self)@ == old(self)@,
            r ==> exists|i: int|
                #[trigger] first_match_at(old(self)@, id as nat, i) && final(self)@ == old(
                    self,
                )@.update(i, set_done(old(self)@[i])),
    {
        let ghost prev = self@;
        let n = self.items.len();
        let mut i: usize = 0;
        while i < n
            invariant
                n == prev.len(),
                0 <= i <= n,
                prev == old(self)@,
                self@ == prev,
                forall|j: int| 0 <= j < i ==> prev[j].id != id as nat,
            decreases n - i,
        {
            if self.items[i].id == id {
                self.items[i].completed = true;
                proof {
                    assert(first_match_at(prev, id as nat, i as int));
                    assert(has_id(prev, id as nat));
                    assert(self@ =~= prev.update(i as int, set_done(prev[i as int])));
                }
                return true;
            }
            i += 1;
        }
        proof {
            assert(!has_id(prev, id as nat));
        }
        false
    }

    /// Removes the first task whose id is `id` and reports whether one
    /// was found, shifting the entries after it up by one; on a miss
    /// the list is unchanged.
    pub fn remove(&mut self, id: usize) -> (r: bool)
        ensures
            r == has_id(old(self)@, id as nat),
            !r ==> final(self)@ == old(self)@,
            r ==> final(self)@.len() == old(self)@.len() - 1,
            r ==> exists|i: int|
                #[trigger] first_match_at(old(self)@, id as nat, i) && final(self)@ == old(
                    self,
                )@.remove(i),
    {
        let ghost prev = self@;
        let n = self.items.len();
        let mut i: usize = 0;
        while i < n
            invariant
                n == prev.len(),
                0 <= i <= n,
                prev == old(self)@,
                self@ == prev,
                forall|j: int| 0 <= j < i ==> prev[j].id != id as nat,
            decreases n - i,
        {
            if self.items[i].id == id {
                self.items.remove(i);
                proof {
                    assert(first_match_at(prev, id as nat, i as int));
                    assert(has_id(prev, id as nat));
                    assert(self@ =~= prev.remove(i as int));
                }
                return true;
            }
            i += 1;
        }
        proof {
            assert(!has_id(prev, id as nat));
        }
        false
    }
}

} // verus!
