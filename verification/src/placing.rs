//! The devices under which copies, calls and ranges are placed.
use crate::emit::{drawn, Timeline};
use crate::hierarchy::lemma_gpu_processes_listed;
use crate::kinds::{has_device, lemma_copy_devices, lemma_process_devices, names_device, touches};
use crate::model::pid_of;
use crate::order::ordered;
use crate::scene::{
    bound_devices, call_devices, call_placed, copy_launched_on, copy_placed, extra_pids, gpu_keys, gpu_process,
    kernel_launched_on, kernel_placed, lemma_extra_pids, linked_devices, placeable, ran_on, range_devices, range_placed,
    scene_devices, shown, visible_pid, Scene,
};
use crate::seqs::{concat, lemma_concat_entry, lemma_index_of};
use crate::slices::{copies_named, kernels_named, launch_named, EmitError};
use vstd::prelude::*;

verus! {

/// A copy is placed under the devices that it names, or under those of its process
/// where it names none.
pub proof fn lemma_copy_placing(s: Scene, i: int, d: i64)
    requires
        0 <= i < s.memcpys.len(),
    ensures
        shown(s, i).contains(d) <==> (if exists|x: i64| #[trigger] names_device(s.memcpys[i], x) {
            names_device(s.memcpys[i], d)
        } else {
            has_device(s.kernels, s.memcpys, pid_of(s.memcpys[i].global_pid), d)
        }),
{
    lemma_copy_devices(s.kernels, s.memcpys, s.memcpys[i], d);
}

/// The call started a kernel that ran on the device, or a copy that is shown on it.
pub open spec fn started_on(s: Scene, c: usize, d: i64) -> bool {
    ||| exists|k: int| 0 <= k < s.kernels.len() && (#[trigger] s.kernels[k]).launch_call == Some(c) && s.kernels[k].device == d
    ||| exists|i: int|
        0 <= i < s.memcpys.len() && (#[trigger] s.memcpys[i]).launch_call == Some(c) && shown(s, i).contains(d)
}

proof fn lemma_started(s: Scene, c: int, d: i64)
    requires
        0 <= c <= usize::MAX,
    ensures
        linked_devices(s, c).contains(d) <==> started_on(s, c as usize, d),
{
    if linked_devices(s, c).contains(d) {
        if exists|k: int| 0 <= k < s.kernels.len() && #[trigger] kernel_launched_on(s, c, d, k) {
            let k = choose|k: int| 0 <= k < s.kernels.len() && #[trigger] kernel_launched_on(s, c, d, k);
            assert(s.kernels[k].device == d);
        } else {
            let i = choose|i: int| 0 <= i < s.memcpys.len() && #[trigger] copy_launched_on(s, c, d, i);
            assert(s.memcpys[i].launch_call == Some(c as usize));
        }
    }
    if started_on(s, c as usize, d) {
        if exists|k: int|
            0 <= k < s.kernels.len() && (#[trigger] s.kernels[k]).launch_call == Some(c as usize) && s.kernels[k].device
                == d {
            let k = choose|k: int|
                0 <= k < s.kernels.len() && (#[trigger] s.kernels[k]).launch_call == Some(c as usize)
                    && s.kernels[k].device == d;
            assert(kernel_launched_on(s, c, d, k));
        } else {
            let i = choose|i: int|
                0 <= i < s.memcpys.len() && (#[trigger] s.memcpys[i]).launch_call == Some(c as usize) && shown(
                    s,
                    i,
                ).contains(d);
            assert(copy_launched_on(s, c, d, i));
        }
    }
}

/// A visible call is placed under the devices that it started work on, or under those
/// of its process where it started none.
pub proof fn lemma_call_placing(s: Scene, c: int, d: i64)
    requires
        0 <= c < s.runtime.len() <= usize::MAX,
        s.runtime[c].event_id is Some,
    ensures
        call_devices(s, c).contains(d) <==> (if exists|x: i64| #[trigger] started_on(s, c as usize, x) {
            started_on(s, c as usize, d)
        } else {
            has_device(s.kernels, s.memcpys, pid_of(s.runtime[c].global_tid), d)
        }),
{
    let linked = linked_devices(s, c);
    lemma_started(s, c, d);
    if exists|x: i64| #[trigger] started_on(s, c as usize, x) {
        let x = choose|x: i64| #[trigger] started_on(s, c as usize, x);
        lemma_started(s, c, x);
        assert(linked.contains(x));
    } else if !linked.is_empty() {
        let x = choose|x: i64| linked.contains(x);
        assert(linked.contains(x));
        lemma_started(s, c, x);
        assert(started_on(s, c as usize, x));
    }
    lemma_extra_pids(s);
    lemma_process_devices(s.kernels, s.memcpys, extra_pids(s), pid_of(s.runtime[c].global_tid), d);
}

/// A range is placed under the devices of the kernels launched from inside it, or under
/// those of its process where there are none.
pub proof fn lemma_range_placing(s: Scene, r: int, d: i64)
    requires
        0 <= r < s.nvtx.len(),
    ensures
        bound_devices(s, r).contains(d) <==> s.nvtx[r].kernel_bounds@.contains_key(d),
        range_devices(s, r).contains(d) <==> (if exists|x: i64| #[trigger] s.nvtx[r].kernel_bounds@.contains_key(x) {
            s.nvtx[r].kernel_bounds@.contains_key(d)
        } else {
            has_device(s.kernels, s.memcpys, s.nvtx[r].pid, d)
        }),
{
    let bounds = s.nvtx[r].kernel_bounds@;
    if exists|x: i64| #[trigger] bounds.contains_key(x) {
        let x = choose|x: i64| #[trigger] bounds.contains_key(x);
        assert(bound_devices(s, r).contains(x));
    } else if !bound_devices(s, r).is_empty() {
        let x = choose|x: i64| bound_devices(s, r).contains(x);
        assert(bound_devices(s, r).contains(x));
        assert(bounds.contains_key(x));
    }
    lemma_extra_pids(s);
    lemma_process_devices(s.kernels, s.memcpys, extra_pids(s), s.nvtx[r].pid, d);
}

/// The process has something to show: a kernel or a copy that names a device, a copy
/// at all, a visible call or a range.
pub open spec fn takes_part(s: Scene, pid: i64) -> bool {
    ||| exists|x: i64| #[trigger] touches(s.kernels, s.memcpys, pid, x)
    ||| exists|i: int| 0 <= i < s.memcpys.len() && pid_of((#[trigger] s.memcpys[i]).global_pid) == pid
    ||| exists|c: int|
        0 <= c < s.runtime.len() && (#[trigger] s.runtime[c]).event_id is Some && pid_of(s.runtime[c].global_tid) == pid
    ||| exists|r: int| 0 <= r < s.nvtx.len() && (#[trigger] s.nvtx[r]).pid == pid
}

proof fn lemma_asked(s: Scene, pid: i64)
    requires
        extra_pids(s).contains(pid),
    ensures
        takes_part(s, pid),
{
    let extra = extra_pids(s);
    let f = |c: int| visible_pid(s.runtime, c);
    let calls = concat(s.runtime.len() as int, f);
    let i = choose|i: int| 0 <= i < extra.len() && extra[i] == pid;
    if i < calls.len() {
        let place = lemma_concat_entry(s.runtime.len() as int, f, i);
        assert(s.runtime[place.0].event_id is Some && pid_of(s.runtime[place.0].global_tid) == pid);
    } else {
        assert(s.nvtx[i - calls.len()].pid == pid);
    }
}

/// The processes of the timeline are the devices of every source process that takes
/// part, and those that kernels ran on.
pub proof fn lemma_timeline_processes(s: Scene, pid: i64, d: i64)
    ensures
        gpu_keys(s).contains((pid, d)) <==> {
            ||| takes_part(s, pid) && has_device(s.kernels, s.memcpys, pid, d)
            ||| exists|k: int|
                0 <= k < s.kernels.len() && pid_of((#[trigger] s.kernels[k]).global_pid) == pid && s.kernels[k].device == d
        },
{
    let extra = extra_pids(s);
    lemma_process_devices(s.kernels, s.memcpys, extra, pid, d);
    lemma_extra_pids(s);
    if extra.contains(pid) {
        lemma_asked(s, pid);
    }
    assert(takes_part(s, pid) <==> scene_devices(s).contains_key(pid));
    if exists|k: int|
        0 <= k < s.kernels.len() && pid_of((#[trigger] s.kernels[k]).global_pid) == pid && s.kernels[k].device == d {
        let k = choose|k: int|
            0 <= k < s.kernels.len() && pid_of((#[trigger] s.kernels[k]).global_pid) == pid && s.kernels[k].device == d;
        assert(ran_on(s, k, (pid, d)));
    }
    if exists|k: int| 0 <= k < s.kernels.len() && #[trigger] ran_on(s, k, (pid, d)) {
        let k = choose|k: int| 0 <= k < s.kernels.len() && #[trigger] ran_on(s, k, (pid, d));
        assert(s.kernels[k].device == d);
    }
}

/// The processes of the timeline are numbered upwards from two billion, by source
/// process and then by device.
pub proof fn lemma_process_numbers(s: Scene, a: (i64, i64), b: (i64, i64))
    requires
        gpu_keys(s).contains(a),
        gpu_keys(s).contains(b),
        2_000_000_000 + ordered(gpu_keys(s)).len() <= i64::MAX,
    ensures
        2_000_000_000 <= gpu_process(s, a.0, a.1) < 2_000_000_000 + gpu_keys(s).len(),
        gpu_process(s, a.0, a.1) < gpu_process(s, b.0, b.1) <==> a.0 < b.0 || (a.0 == b.0 && a.1 < b.1),
{
    lemma_gpu_processes_listed(s);
    let keys = ordered(gpu_keys(s));
    assert(keys.to_set().contains(a) && keys.to_set().contains(b));
    let i = choose|i: int| 0 <= i < keys.len() && keys[i] == a;
    let j = choose|j: int| 0 <= j < keys.len() && keys[j] == b;
    lemma_index_of(keys, i);
    lemma_index_of(keys, j);
    keys.unique_seq_to_set();
    assert((a.0, a.1) == a && (b.0, b.1) == b);
}

/// A timeline has a place for everything exactly if every launch points at a call, and
/// the devices that calls started work on and that ranges project to are processes of
/// the timeline under their source process.
pub proof fn lemma_everything_is_placed(s: Scene)
    requires
        s.runtime.len() <= usize::MAX,
    ensures
        placeable(s) <==> {
            &&& forall|k: int|
                0 <= k < s.kernels.len() ==> ((#[trigger] s.kernels[k]).launch_call matches Some(c) ==> c < s.runtime.len())
            &&& forall|i: int|
                0 <= i < s.memcpys.len() ==> ((#[trigger] s.memcpys[i]).launch_call matches Some(c) ==> c < s.runtime.len())
            &&& forall|c: int, d: i64|
                0 <= c < s.runtime.len() && #[trigger] started_on(s, c as usize, d) ==> gpu_keys(s).contains(
                    (pid_of(s.runtime[c].global_tid), d),
                )
            &&& forall|r: int, d: i64|
                0 <= r < s.nvtx.len() && #[trigger] s.nvtx[r].kernel_bounds@.contains_key(d) ==> gpu_keys(s).contains(
                    (s.nvtx[r].pid, d),
                )
        },
{
    lemma_extra_pids(s);
    assert((forall|k: int| 0 <= k < s.kernels.len() ==> #[trigger] kernel_placed(s, k)) <==> (forall|k: int|
        0 <= k < s.kernels.len() ==> ((#[trigger] s.kernels[k]).launch_call matches Some(c) ==> c < s.runtime.len()))) by {
        if forall|k: int| 0 <= k < s.kernels.len() ==> #[trigger] kernel_placed(s, k) {
            assert forall|k: int| 0 <= k < s.kernels.len() implies ((#[trigger] s.kernels[k]).launch_call matches Some(c)
                ==> c < s.runtime.len()) by {
                assert(kernel_placed(s, k));
            }
        }
    }
    assert((forall|i: int| 0 <= i < s.memcpys.len() ==> #[trigger] copy_placed(s, i)) <==> (forall|i: int|
        0 <= i < s.memcpys.len() ==> ((#[trigger] s.memcpys[i]).launch_call matches Some(c) ==> c < s.runtime.len()))) by {
        if forall|i: int| 0 <= i < s.memcpys.len() ==> #[trigger] copy_placed(s, i) {
            assert forall|i: int| 0 <= i < s.memcpys.len() implies ((#[trigger] s.memcpys[i]).launch_call matches Some(c)
                ==> c < s.runtime.len()) by {
                assert(copy_placed(s, i));
            }
        }
    }
    if forall|c: int| 0 <= c < s.runtime.len() ==> #[trigger] call_placed(s, c) {
        assert forall|c: int, d: i64| 0 <= c < s.runtime.len() && #[trigger] started_on(s, c as usize, d) implies gpu_keys(
            s,
        ).contains((pid_of(s.runtime[c].global_tid), d)) by {
            lemma_started(s, c, d);
            assert(call_placed(s, c));
            assert(linked_devices(s, c).contains(d));
            assert(call_devices(s, c).contains(d));
        }
    }
    if forall|c: int, d: i64|
        0 <= c < s.runtime.len() && #[trigger] started_on(s, c as usize, d) ==> gpu_keys(s).contains(
            (pid_of(s.runtime[c].global_tid), d),
        ) {
        assert forall|c: int| 0 <= c < s.runtime.len() implies #[trigger] call_placed(s, c) by {
            assert forall|d: i64| #[trigger] call_devices(s, c).contains(d) implies gpu_keys(s).contains(
                (pid_of(s.runtime[c].global_tid), d),
            ) by {
                lemma_started(s, c, d);
                if linked_devices(s, c).contains(d) {
                    assert(started_on(s, c as usize, d));
                }
            }
        }
    }
    if forall|r: int| 0 <= r < s.nvtx.len() ==> #[trigger] range_placed(s, r) {
        assert forall|r: int, d: i64|
            0 <= r < s.nvtx.len() && #[trigger] s.nvtx[r].kernel_bounds@.contains_key(d) implies gpu_keys(s).contains(
            (s.nvtx[r].pid, d),
        ) by {
            assert(range_placed(s, r));
            assert(bound_devices(s, r).contains(d));
        }
    }
    if forall|r: int, d: i64|
        0 <= r < s.nvtx.len() && #[trigger] s.nvtx[r].kernel_bounds@.contains_key(d) ==> gpu_keys(s).contains(
            (s.nvtx[r].pid, d),
        ) {
        assert forall|r: int| 0 <= r < s.nvtx.len() implies #[trigger] range_placed(s, r) by {
            assert forall|d: i64| #[trigger] bound_devices(s, r).contains(d) implies gpu_keys(s).contains(
                (s.nvtx[r].pid, d),
            ) by {
                assert(s.nvtx[r].kernel_bounds@.contains_key(d));
            }
        }
    }
}

/// Drawing succeeds exactly if every launched activity's call has an identifier; where
/// one has not, kernels are reported before copies.
pub proof fn lemma_drawing_succeeds(s: Scene, outcome: Result<Timeline, EmitError>)
    requires
        drawn(s, outcome),
    ensures
        outcome matches Err(EmitError::KernelLaunch) <==> unnamed_kernel(s),
        outcome matches Err(EmitError::CopyLaunch) <==> !unnamed_kernel(s) && unnamed_copy(s),
        outcome is Ok <==> !unnamed_kernel(s) && !unnamed_copy(s),
{
    if kernels_named(s) {
        assert forall|k: int| 0 <= k < s.kernels.len() implies ((#[trigger] s.kernels[k]).launch_call matches Some(c)
            ==> s.runtime[c as int].event_id is Some) by {
            assert(launch_named(s, s.kernels[k].launch_call));
        }
        assert(!unnamed_kernel(s));
    }
    if copies_named(s) {
        assert forall|i: int| 0 <= i < s.memcpys.len() implies ((#[trigger] s.memcpys[i]).launch_call matches Some(c)
            ==> s.runtime[c as int].event_id is Some) by {
            assert(launch_named(s, s.memcpys[i].launch_call));
        }
        assert(!unnamed_copy(s));
    }
}

/// Some kernel was launched by a call without an identifier.
pub open spec fn unnamed_kernel(s: Scene) -> bool {
    exists|k: int|
        0 <= k < s.kernels.len() && ((#[trigger] s.kernels[k]).launch_call matches Some(c)
            && s.runtime[c as int].event_id is None)
}

/// Some copy was launched by a call without an identifier.
pub open spec fn unnamed_copy(s: Scene) -> bool {
    exists|i: int|
        0 <= i < s.memcpys.len() && ((#[trigger] s.memcpys[i]).launch_call matches Some(c)
            && s.runtime[c as int].event_id is None)
}

} // verus!
