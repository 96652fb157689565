use vstd::prelude::*;

verus! {

/// Mathematical value of a task: the title's characters and the two flags.
#[verifier::ext_equal]
pub struct TaskV {
    pub title: Seq<char>,
    pub completed: bool,
    pub important: bool,
}

/// A single to-do item: a free-form title and two flags. Immutable once
/// created; there is no update or delete operation.
#[derive(Clone)]
pub struct Task {
    pub title: String,
    pub completed: bool,
    pub important: bool,
}

impl View for Task {
    type V = TaskV;

    open spec fn view(&self) -> TaskV {
        TaskV { title: self.title@, completed: self.completed, important: self.important }
    }
}

impl Task {
    pub fn new(title: String, completed: bool, important: bool) -> (t: Task)
        ensures
            t@ == (TaskV { title: title@, completed, important }),
    {
        Task { title, completed, important }
    }
}

/// The views of every task in a sequence, in order.
pub open spec fn task_views(s: Seq<Task>) -> Seq<TaskV> {
    s.map_values(|t: Task| t@)
}

/// One caller's tasks, in the order they were added.
#[derive(Clone)]
pub struct TaskList {
    pub tasks: Vec<Task>,
}

impl View for TaskList {
    type V = Seq<TaskV>;

    open spec fn view(&self) -> Seq<TaskV> {
        task_views(self.tasks@)
    }
}

impl TaskList {
    pub fn new() -> (l: TaskList)
        ensures
            l@ == Seq::<TaskV>::empty(),
    {
        let l = TaskList { tasks: Vec::new() };
        proof {
            assert(l@ =~= Seq::<TaskV>::empty());
        }
        l
    }

    /// Appends a task at the end of the list.
    pub fn add_task(&mut self, task: Task)
        ensures
            final(self)@ == old(self)@.push(task@),
    {
        let ghost before = self.tasks@;
        self.tasks.push(task);
        proof {
            assert(task_views(self.tasks@) =~= task_views(before).push(task@));
        }
    }

    /// All tasks of the list, in insertion order.
    pub fn get_tasks(&self) -> (r: &Vec<Task>)
        ensures
            task_views(r@) == self@,
    {
        &self.tasks
    }
}

} // verus!
