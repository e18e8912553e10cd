use kernel_vm::process::{
    sys_exec, sys_fork, sys_get_time, sys_getpid, sys_sbrk, sys_set_priority, sys_spawn,
    sys_task_info, sys_waitpid, sys_yield, ChildProcess, TaskStatus, TimeVal,
};

fn child(pid: usize, zombie: bool, exit_code: i32) -> ChildProcess {
    ChildProcess { pid, zombie, exit_code }
}

#[test]
fn waitpid_without_matching_child() {
    let mut cs = vec![child(3, true, 1)];
    assert_eq!(sys_waitpid(&mut cs, 4), (-1, None));
    assert_eq!(cs.len(), 1);
    let mut none: Vec<ChildProcess> = Vec::new();
    assert_eq!(sys_waitpid(&mut none, -1), (-1, None));
}

#[test]
fn waitpid_child_still_running() {
    let mut cs = vec![child(3, false, 0), child(4, true, 9)];
    assert_eq!(sys_waitpid(&mut cs, 3), (-2, None));
    assert_eq!(cs.len(), 2);
}

#[test]
fn waitpid_reaps_selected_zombie() {
    let mut cs = vec![child(3, false, 0), child(4, true, 9), child(5, true, 7)];
    assert_eq!(sys_waitpid(&mut cs, 5), (5, Some(7)));
    assert_eq!(cs, vec![child(3, false, 0), child(4, true, 9)]);
}

#[test]
fn waitpid_any_reaps_first_zombie() {
    let mut cs = vec![child(3, false, 0), child(4, true, 9), child(5, true, 7)];
    assert_eq!(sys_waitpid(&mut cs, -1), (4, Some(9)));
    assert_eq!(cs, vec![child(3, false, 0), child(5, true, 7)]);
}

#[test]
fn set_priority_bounds() {
    let mut prio: isize = 16;
    assert_eq!(sys_set_priority(&mut prio, 1), -1);
    assert_eq!(prio, 16);
    assert_eq!(sys_set_priority(&mut prio, 2), 2);
    assert_eq!(prio, 2);
}

#[test]
fn fork_and_spawn_return_zero_in_child() {
    let mut regs = [7usize; 32];
    assert_eq!(sys_fork(&mut regs, 42), 42);
    assert_eq!(regs[10], 0);
    assert_eq!(regs[11], 7);
    let mut regs = [5usize; 32];
    assert_eq!(sys_spawn(&mut regs, 43), 43);
    assert_eq!(regs[10], 0);
    assert_eq!(regs[9], 5);
}

#[test]
fn small_syscalls() {
    assert_eq!(sys_yield(), 0);
    assert_eq!(sys_getpid(12), 12);
    assert_eq!(sys_exec(true), 0);
    assert_eq!(sys_exec(false), -1);
    assert_eq!(sys_sbrk(Some(0x8000)), 0x8000);
    assert_eq!(sys_sbrk(None), -1);
}

#[test]
fn get_time_splits_microseconds() {
    assert_eq!(sys_get_time(3_250_017), TimeVal { sec: 3, usec: 250_017 });
    assert_eq!(sys_get_time(999_999), TimeVal { sec: 0, usec: 999_999 });
}

#[test]
fn task_info_reports_running_task() {
    let info = sys_task_info(vec![0, 3, 1], 42);
    assert_eq!(info.status, TaskStatus::Running);
    assert_eq!(info.syscall_times, vec![0, 3, 1]);
    assert_eq!(info.time, 42);
}
