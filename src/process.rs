//! The decisions of the process syscalls. The scheduler, the loader and the
//! process tree perform the actions; these functions take what those report
//! and say what the syscall returns and what changes.
use vstd::prelude::*;

verus! {

/// Index of the argument / return-value register (`a0`) in a trap context.
pub const A0: usize = 10;

/// Seconds and microseconds, as user programs receive the time.
#[derive(Clone, Copy, PartialEq, Eq, Structural, Debug)]
pub struct TimeVal {
    pub sec: usize,
    pub usec: usize,
}

/// Where a task is in its life cycle.
#[derive(Clone, Copy, PartialEq, Eq, Structural, Debug)]
pub enum TaskStatus {
    Ready,
    Running,
    Zombie,
}

/// What task_info reports of the calling task.
pub struct TaskInfo {
    /// Status of the task.
    pub status: TaskStatus,
    /// How often the task has made each syscall, indexed by syscall number.
    pub syscall_times: Vec<u32>,
    /// Total running time of the task.
    pub time: usize,
}

/// A child process as its parent sees it.
#[derive(Clone, Copy, PartialEq, Eq, Structural, Debug)]
pub struct ChildProcess {
    pub pid: usize,
    pub zombie: bool,
    pub exit_code: i32,
}

/// `want` selects the child `pid`: -1 selects every child.
pub open spec fn pid_selects(want: isize, pid: usize) -> bool {
    want == -1 || (want >= 0 && want == pid)
}

/// The child at `i` is selected by `want` and has exited.
pub open spec fn reapable(children: Seq<ChildProcess>, want: isize, i: int) -> bool {
    pid_selects(want, children[i].pid) && children[i].zombie
}

/// The calling task gives up the processor; the syscall returns 0.
pub fn sys_yield() -> (r: isize)
    ensures
        r == 0,
{
    0
}

/// The caller's process id.
pub fn sys_getpid(pid: usize) -> (r: isize)
    requires
        pid <= isize::MAX,
    ensures
        r == pid,
{
    pid as isize
}

/// After the process tree has duplicated the caller into `new_pid`, the child's
/// trap context returns 0 and the parent receives the child's pid.
pub fn sys_fork(child_regs: &mut [usize; 32], new_pid: usize) -> (r: isize)
    requires
        new_pid <= isize::MAX,
    ensures
        final(child_regs)@ == old(child_regs)@.update(A0 as int, 0),
        r == new_pid,
{
    child_regs[A0] = 0;
    new_pid as isize
}

/// `exec` replaces the caller's image when the loader found the program (0),
/// and fails otherwise (-1).
pub fn sys_exec(app_found: bool) -> (r: isize)
    ensures
        r == (if app_found { 0isize } else { -1isize }),
{
    if app_found {
        0
    } else {
        -1
    }
}

/// Waits for a child. `want` is a pid, or -1 for any child. Returns -1 when no
/// child is selected; -2 when the selected ones all still run; otherwise the
/// first selected zombie leaves `children` and its pid and exit code come back.
pub fn sys_waitpid(children: &mut Vec<ChildProcess>, want: isize) -> (r: (isize, Option<i32>))
    requires
        forall|i: int| 0 <= i < old(children)@.len() ==> #[trigger] old(children)@[i].pid <= isize::MAX,
    ensures
        (r.0 == -1) == !exists|i: int| 0 <= i < old(children)@.len() && pid_selects(want, #[trigger] old(children)@[i].pid),
        r.0 == -1 || r.0 == -2 ==> final(children)@ == old(children)@ && r.1.is_none(),
        (r.0 == -2) == ((exists|i: int| 0 <= i < old(children)@.len() && pid_selects(want, #[trigger] old(children)@[i].pid))
            && !exists|i: int| 0 <= i < old(children)@.len() && #[trigger] reapable(old(children)@, want, i)),
        r.0 != -1 && r.0 != -2 ==> exists|k: int| {
            &&& 0 <= k < old(children)@.len()
            &&& #[trigger] reapable(old(children)@, want, k)
            &&& forall|j: int| 0 <= j < k ==> !#[trigger] reapable(old(children)@, want, j)
            &&& final(children)@ == old(children)@.remove(k)
            &&& r.0 == old(children)@[k].pid
            &&& r.1 == Some(old(children)@[k].exit_code)
        },
{
    let n = children.len();
    let mut any = false;
    let mut i: usize = 0;
    while i < n
        invariant
            n == children@.len(),
            children@ == old(children)@,
            i <= n,
            any == exists|j: int| 0 <= j < i && pid_selects(want, #[trigger] children@[j].pid),
        decreases n - i,
    {
        let p = children[i].pid;
        if want == -1 || (want >= 0 && want as usize == p) {
            any = true;
        }
        i = i + 1;
    }
    if !any {
        return (-1, None);
    }
    let mut i: usize = 0;
    while i < n
        invariant
            n == children@.len(),
            children@ == old(children)@,
            i <= n,
            exists|j: int| 0 <= j < n && pid_selects(want, #[trigger] children@[j].pid),
            forall|j: int| 0 <= j < n ==> #[trigger] children@[j].pid <= isize::MAX,
            forall|j: int| 0 <= j < i ==> !#[trigger] reapable(children@, want, j),
        decreases n - i,
    {
        let c = children[i];
        if c.zombie && (want == -1 || (want >= 0 && want as usize == c.pid)) {
            let ghost before = children@;
            assert(reapable(before, want, i as int));
            assert(pid_selects(want, before[i as int].pid));
            let child = children.remove(i);
            assert(child == before[i as int]);
            return (child.pid as isize, Some(child.exit_code));
        }
        i = i + 1;
    }
    (-2, None)
}

/// Reports the program break that the task moved: the old break, or -1 when
/// the task refused the change.
pub fn sys_sbrk(old_brk: Option<usize>) -> (r: isize)
    requires
        old_brk matches Some(b) ==> b <= isize::MAX,
    ensures
        r == (match old_brk {
            Some(b) => b as isize,
            None => -1isize,
        }),
{
    match old_brk {
        Some(b) => b as isize,
        None => -1,
    }
}

/// Like fork, the spawned child's trap context returns 0 and the parent receives
/// the child's pid, whether or not the loader found the program to run in it.
pub fn sys_spawn(child_regs: &mut [usize; 32], new_pid: usize) -> (r: isize)
    requires
        new_pid <= isize::MAX,
    ensures
        final(child_regs)@ == old(child_regs)@.update(A0 as int, 0),
        r == new_pid,
{
    child_regs[A0] = 0;
    new_pid as isize
}

/// Sets the caller's priority to `prio` when it is at least 2 and returns it;
/// returns -1 and keeps the old priority otherwise.
pub fn sys_set_priority(priority: &mut isize, prio: isize) -> (r: isize)
    ensures
        prio < 2 ==> r == -1 && *final(priority) == *old(priority),
        prio >= 2 ==> r == prio && *final(priority) == prio,
{
    if prio < 2 {
        -1
    } else {
        *priority = prio;
        prio
    }
}

/// Splits a time in microseconds into the record that get_time writes (through
/// the windows of `translated_byte_buffer`, as it may straddle two pages).
pub fn sys_get_time(us: usize) -> (r: TimeVal)
    ensures
        r.sec == us / 1000000,
        r.usec == us % 1000000,
{
    TimeVal { sec: us / 1000000, usec: us % 1000000 }
}

/// The record that task_info writes for the calling task, which is running
/// while it asks; like get_time's, it goes out through the windows of
/// `translated_byte_buffer`.
pub fn sys_task_info(syscall_times: Vec<u32>, time: usize) -> (r: TaskInfo)
    ensures
        r.status == TaskStatus::Running,
        r.syscall_times@ == syscall_times@,
        r.time == time,
{
    TaskInfo { status: TaskStatus::Running, syscall_times, time }
}

} // verus!
