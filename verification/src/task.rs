use vstd::prelude::*;

verus! {

/// A periodic real-time task: worst-case execution time, relative deadline
/// and period, all in the same time unit.
#[derive(Clone, Copy, Debug)]
pub struct Task {
    pub wcet: u32,
    pub deadline: u32,
    pub period: u32,
}

/// Every task of the sequence has a positive period.
pub open spec fn valid_tasks(s: Seq<Task>) -> bool {
    forall|i: int| 0 <= i < s.len() ==> #[trigger] s[i].period > 0
}

/// An ordered task set; the first task pushed is the head of the list.
pub struct Tasklist {
    tasks: Vec<Task>,
}

impl View for Tasklist {
    type V = Seq<Task>;

    closed spec fn view(&self) -> Seq<Task> {
        self.tasks@
    }
}

impl Tasklist {
    /// No task of the set has a zero period.
    #[verifier::type_invariant]
    spec fn well_formed(&self) -> bool {
        valid_tasks(self@)
    }

    /// The empty task set.
    pub fn new() -> (r: Tasklist)
        ensures
            r@ == Seq::<Task>::empty(),
    {
        Tasklist { tasks: Vec::new() }
    }

    /// Appends a task at the end of the set.
    pub fn push(&mut self, task: Task)
        requires
            task.period > 0,
        ensures
            final(self)@ == old(self)@.push(task),
    {
        proof {
            use_type_invariant(&*self);
        }
        let mut tasks: Vec<Task> = Vec::new();
        std::mem::swap(&mut tasks, &mut self.tasks);
        tasks.push(task);
        self.tasks = tasks;
    }

    /// Number of tasks in the set.
    pub fn len(&self) -> (n: usize)
        ensures
            n == self@.len(),
            valid_tasks(self@),
    {
        proof {
            use_type_invariant(self);
        }
        self.tasks.len()
    }

    /// The task at position `index`.
    pub fn get(&self, index: usize) -> (t: Task)
        requires
            index < self@.len(),
        ensures
            t == self@[index as int],
            t.period > 0,
    {
        proof {
            use_type_invariant(self);
        }
        self.tasks[index]
    }
}

} // verus!
