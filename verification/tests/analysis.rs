use nsys2perfetto::devices::{
    copy_device_candidates, copy_direction, copy_track_name, direction_slug, is_pcie_copy, memory_kind,
    primary_copy_device, resolve_device_assignments,
};
use nsys2perfetto::lanes::{allocate_interval_lanes, allocate_laminar_lanes};
use nsys2perfetto::link::{
    assign_kernel_ids, is_cuda_sync_api, link_runtime_calls_to_gpu_activities, mark_cuda_sync_calls,
    mark_unlinked_calls,
};
use nsys2perfetto::model::{
    flow_end_ns, flow_start_ns, source_pid, source_tid, Kernel, Memcpy, NvtxRange, RuntimeCall, GLOBAL_ID_RADIX,
};
use nsys2perfetto::project::project_nvtx_to_kernels;
use std::collections::{BTreeMap, BTreeSet};

fn test_kernel(pid: i64, device: i64, correlation: i64, start: i64) -> Kernel {
    Kernel {
        start,
        end: start + 5,
        device,
        context: device,
        stream: device,
        correlation,
        global_pid: pid * GLOBAL_ID_RADIX,
        name: format!("kernel_{device}"),
        grid: [1, 1, 1],
        block: [1, 1, 1],
        sequence: 0,
        event_id: String::new(),
        launch_call: None,
        nvtx_regions: Vec::new(),
    }
}

fn test_copy(pid: i64, copy_kind: i64, device: i64, src_device: i64, dst_device: i64) -> Memcpy {
    Memcpy {
        start: 10,
        end: 20,
        device,
        context: 1,
        stream: 7,
        correlation: 5,
        global_pid: pid * GLOBAL_ID_RADIX,
        bytes: 64,
        copy_kind,
        src_kind: 1,
        dst_kind: 2,
        src_device,
        src_context: -1,
        dst_device,
        dst_context: -1,
        graph_node: -1,
        virtual_address: "0".into(),
        copy_count: 1,
        event_id: String::new(),
        launch_call: None,
    }
}

fn test_call(pid: i64, tid: i64, correlation: i64, start: i64, end: i64, name: &str) -> RuntimeCall {
    RuntimeCall {
        start,
        end,
        global_tid: pid * GLOBAL_ID_RADIX + tid,
        correlation,
        name: name.into(),
        event_id: None,
    }
}

fn test_range(pid: i64, tid: i64, start: i64, end: i64, name: &str) -> NvtxRange {
    NvtxRange { start, end, name: name.into(), pid, tid, kernel_bounds: BTreeMap::new() }
}

#[test]
fn projects_one_process_to_multiple_devices() {
    let pid = 42;
    let tid = 7;
    let mut kernels = vec![test_kernel(pid, 0, 10, 15), test_kernel(pid, 1, 11, 25)];
    let mut nvtx = vec![NvtxRange {
        start: 0,
        end: 100,
        name: "multi_gpu_range".into(),
        pid,
        tid,
        kernel_bounds: BTreeMap::new(),
    }];
    let mut runtime = vec![
        RuntimeCall {
            start: 10,
            end: 12,
            global_tid: pid * GLOBAL_ID_RADIX + tid,
            correlation: 10,
            name: "cudaLaunchKernel".into(),
            event_id: None,
        },
        RuntimeCall {
            start: 20,
            end: 22,
            // A call made on another thread of the process still counts.
            global_tid: pid * GLOBAL_ID_RADIX + tid + 1,
            correlation: 11,
            name: "cudaLaunchKernel".into(),
            event_id: None,
        },
    ];

    let mut memcpys = Vec::new();
    assert_eq!(
        link_runtime_calls_to_gpu_activities("report", &mut kernels, &mut memcpys, &mut runtime),
        (2, 0)
    );
    project_nvtx_to_kernels(&mut kernels, &mut nvtx, &runtime);

    assert_eq!(kernels[0].launch_call, Some(0));
    assert_eq!(kernels[1].launch_call, Some(1));
    assert!(runtime.iter().all(|call| call.event_id.is_some()));
    assert_eq!(nvtx[0].kernel_bounds.get(&0), Some(&(15, 20)));
    assert_eq!(nvtx[0].kernel_bounds.get(&1), Some(&(25, 30)));
    assert_eq!(kernels[0].nvtx_regions, ["multi_gpu_range"]);
    assert_eq!(kernels[1].nvtx_regions, ["multi_gpu_range"]);

    runtime[1].end = kernels[1].start + 10;
    let flow_start = flow_start_ns(&runtime[1], kernels[1].start);
    assert!(flow_start >= runtime[1].start);
    assert!(flow_start < kernels[1].start);
}

#[test]
fn assigns_unknown_process_to_every_discovered_device() {
    let kernels = (0..4)
        .map(|device| test_kernel(42, device, 10 + device, 15 + device))
        .collect::<Vec<_>>();
    let (process_devices, copy_devices) = resolve_device_assignments(&kernels, &[], &[7_i64]);

    assert!(copy_devices.is_empty());
    assert_eq!(process_devices[&7], BTreeSet::from([0_i64, 1_i64, 2_i64, 3_i64]));
}

#[test]
fn combines_host_transfers_on_pcie_usage_track() {
    assert_eq!(copy_track_name(1), "PCIe Usage");
    assert_eq!(copy_track_name(2), "PCIe Usage");
    assert_eq!(copy_track_name(11), "PCIe Usage");
    assert_eq!(copy_track_name(12), "PCIe Usage");
    assert_eq!(copy_track_name(8), "GPU Copy D2D");
    assert!([1, 2, 11, 12].into_iter().all(is_pcie_copy));
    assert!([3, 8, 13].into_iter().all(|kind| !is_pcie_copy(kind)));
}

#[test]
fn allocates_overlapping_kernel_timeline_lanes_without_duplication() {
    let mut intervals = vec![(0, 10, 0), (5, 7, 1), (7, 12, 2), (12, 15, 3)];
    let assignments = allocate_interval_lanes(&mut intervals);

    assert_eq!(assignments.len(), 4);
    assert_eq!(assignments, vec![(0, 0), (1, 1), (2, 1), (3, 0)]);
}

#[test]
fn keeps_nested_intervals_together_and_separates_partial_crossings() {
    let mut intervals = vec![
        (0, 10, "outer"),
        (2, 5, "nested"),
        (4, 12, "crossing"),
        (12, 15, "disjoint"),
        (0, 8, "same_start_inner"),
    ];
    let assignments = allocate_laminar_lanes(&mut intervals);

    assert_eq!(
        assignments,
        vec![
            ("outer", 0),
            ("same_start_inner", 0),
            ("nested", 0),
            ("crossing", 1),
            ("disjoint", 0),
        ]
    );
}

#[test]
fn marks_device_and_stream_synchronization_calls_as_visible() {
    let mut runtime = vec![
        RuntimeCall {
            start: 10,
            end: 20,
            global_tid: 7 * GLOBAL_ID_RADIX + 11,
            correlation: 1,
            name: "cudaDeviceSynchronize".into(),
            event_id: None,
        },
        RuntimeCall {
            start: 30,
            end: 40,
            global_tid: 7 * GLOBAL_ID_RADIX + 11,
            correlation: 2,
            name: "cudaStreamSynchronize_ptsz".into(),
            event_id: None,
        },
        RuntimeCall {
            start: 50,
            end: 60,
            global_tid: 7 * GLOBAL_ID_RADIX + 11,
            correlation: 3,
            name: "cudaLaunchKernel".into(),
            event_id: None,
        },
    ];

    assert_eq!(mark_cuda_sync_calls("report", &mut runtime), 2);
    assert!(runtime[0].event_id.is_some());
    assert!(runtime[1].event_id.is_some());
    assert!(runtime[2].event_id.is_none());
}

#[test]
fn identifiers_name_process_thread_and_position() {
    let mut kernels = vec![test_kernel(42, 0, 10, 15), test_kernel(42, 0, 12, 40)];
    let mut copies = vec![test_copy(42, 1, 0, -1, 0)];
    let mut runtime = vec![
        test_call(42, 7, 10, 10, 12, "cudaLaunchKernel"),
        test_call(42, 7, 5, 8, 9, "cudaMemcpyAsync"),
        test_call(42, 8, 77, 50, 60, "cudaStreamSynchronize"),
        test_call(42, 8, 78, 70, 80, "cudaMalloc"),
    ];
    let links = link_runtime_calls_to_gpu_activities("rep", &mut kernels, &mut copies, &mut runtime);
    assert_eq!(links, (1, 1));
    assert_eq!(kernels[1].launch_call, None);
    assert_eq!(mark_cuda_sync_calls("rep", &mut runtime), 1);
    assign_kernel_ids("rep", &mut kernels);
    assert_eq!(runtime[0].event_id.as_deref(), Some("rep:cuda_api:42:7:10:0"));
    assert_eq!(runtime[1].event_id.as_deref(), Some("rep:cuda_api:42:7:5:1"));
    assert_eq!(runtime[2].event_id.as_deref(), Some("rep:cuda_api_sync:42:8:77:2"));
    assert_eq!(runtime[3].event_id, None);
    assert_eq!(copies[0].event_id, "rep:cuda_memcpy:0:1:7:0");
    assert_eq!(kernels[0].event_id, "rep:cuda:42:0:0:0:1");
    assert_eq!(kernels[1].event_id, "rep:cuda:42:0:0:0:2");
    assert_eq!((kernels[0].sequence, kernels[1].sequence), (1, 2));
}

#[test]
fn unlinked_calls_are_named_when_there_is_no_activity() {
    let mut runtime = vec![test_call(3, 4, 9, 1, 2, "cudaMalloc")];
    mark_unlinked_calls("rep", &mut runtime);
    assert_eq!(runtime[0].event_id.as_deref(), Some("rep:cuda_api_unlinked:3:4:9:0"));
}

#[test]
fn the_nearest_earlier_call_launched_an_activity() {
    let mut kernels = vec![test_kernel(1, 0, 5, 100)];
    let mut runtime = vec![
        test_call(1, 1, 5, 10, 11, "a"),
        test_call(1, 1, 5, 90, 91, "b"),
        test_call(1, 1, 5, 101, 102, "c"),
        test_call(2, 1, 5, 99, 100, "other process"),
    ];
    let links = link_runtime_calls_to_gpu_activities("r", &mut kernels, &mut [], &mut runtime);
    assert_eq!(links, (1, 0));
    assert_eq!(kernels[0].launch_call, Some(1));
}

#[test]
fn ranges_project_only_to_kernels_launched_inside() {
    let mut kernels = vec![test_kernel(1, 0, 5, 100), test_kernel(1, 0, 6, 300), test_kernel(1, 0, 7, 120)];
    let runtime = vec![
        test_call(1, 1, 5, 20, 21, "inside"),
        test_call(1, 1, 6, 60, 61, "outside"),
        test_call(1, 1, 7, 30, 31, "inside too"),
    ];
    let mut nvtx = vec![test_range(1, 1, 10, 50, "step"), test_range(2, 1, 10, 50, "other process")];
    project_nvtx_to_kernels(&mut kernels, &mut nvtx, &runtime);
    assert_eq!(nvtx[0].kernel_bounds, BTreeMap::from([(0, (100, 125))]));
    assert!(nvtx[1].kernel_bounds.is_empty());
    assert_eq!(kernels[0].nvtx_regions, ["step"]);
    assert!(kernels[1].nvtx_regions.is_empty());
    assert_eq!(kernels[2].nvtx_regions, ["step"]);
}

#[test]
fn a_range_that_takes_no_time_projects_to_nothing() {
    let mut kernels = vec![test_kernel(42, 0, 10, 15)];
    let runtime = vec![test_call(42, 7, 10, 10, 12, "cudaLaunchKernel")];
    let mut nvtx = vec![test_range(42, 7, 5, 5, "mark"), test_range(42, 7, 20, 5, "backwards")];
    project_nvtx_to_kernels(&mut kernels, &mut nvtx, &runtime);
    assert!(nvtx[0].kernel_bounds.is_empty());
    assert!(nvtx[1].kernel_bounds.is_empty());
    assert!(kernels[0].nvtx_regions.is_empty());
}

#[test]
fn a_boundary_belongs_to_no_range() {
    let mut kernels = vec![test_kernel(1, 0, 5, 100), test_kernel(1, 0, 6, 200)];
    let runtime = vec![test_call(1, 1, 5, 10, 12, "at start"), test_call(1, 1, 6, 50, 52, "at end")];
    let mut nvtx = vec![test_range(1, 1, 10, 50, "step")];
    project_nvtx_to_kernels(&mut kernels, &mut nvtx, &runtime);
    assert!(nvtx[0].kernel_bounds.is_empty());
}

#[test]
fn flow_arrows_leave_before_the_activity_and_arrive_inside() {
    let call = test_call(1, 1, 5, 10, 40, "cudaLaunchKernel");
    assert_eq!(flow_start_ns(&call, 100), 39);
    assert_eq!(flow_start_ns(&call, 30), 29);
    assert_eq!(flow_start_ns(&call, 5), 10);
    assert_eq!(flow_end_ns(100, 200), 101);
    assert_eq!(flow_end_ns(100, 100), 100);
}

#[test]
fn global_identifiers_hold_process_and_thread() {
    assert_eq!(source_pid(42 * GLOBAL_ID_RADIX + 7), 42);
    assert_eq!(source_tid(42 * GLOBAL_ID_RADIX + 7), 7);
    assert_eq!(source_pid(-(42 * GLOBAL_ID_RADIX + 7)), -42);
    assert_eq!(source_tid(-(42 * GLOBAL_ID_RADIX + 7)), -7);
}

#[test]
fn copy_kinds_have_directions_and_devices() {
    let kinds = [1, 2, 3, 8, 11, 12, 13, 4];
    let names: Vec<&str> = kinds.iter().map(|&kind| copy_direction(kind)).collect();
    assert_eq!(
        names,
        ["H2D", "D2H", "D2D", "D2D", "Unified H2D", "Unified D2H", "Unified D2D", "Unknown"]
    );
    assert_eq!(direction_slug(12), "unified_d2h");
    assert_eq!(copy_track_name(4), "CUDA Copy Unknown");
    assert_eq!(memory_kind(1), "Pinned");
    assert_eq!(memory_kind(9), "Unknown");
    assert_eq!(copy_device_candidates(&test_copy(1, 1, 0, 5, 2)), BTreeSet::from([0, 2]));
    assert_eq!(copy_device_candidates(&test_copy(1, 2, 0, 5, 2)), BTreeSet::from([0, 5]));
    assert_eq!(copy_device_candidates(&test_copy(1, 8, 0, 5, 2)), BTreeSet::from([0, 2, 5]));
    assert_eq!(copy_device_candidates(&test_copy(1, 1, -1, 5, -1)), BTreeSet::new());
    assert_eq!(primary_copy_device(&test_copy(1, 1, 2, -1, 3), &BTreeSet::from([2, 3])), 2);
    assert_eq!(primary_copy_device(&test_copy(1, 1, -1, -1, 3), &BTreeSet::from([3, 4])), 3);
}

#[test]
fn copies_without_a_device_are_shown_on_those_of_their_process() {
    let kernels = vec![test_kernel(1, 2, 5, 10), test_kernel(9, 4, 5, 10)];
    let copies = vec![test_copy(1, 1, -1, -1, -1), test_copy(3, 1, -1, -1, -1)];
    let (processes, shown) = resolve_device_assignments(&kernels, &copies, &[]);
    assert_eq!(shown, vec![BTreeSet::from([2]), BTreeSet::from([2, 4])]);
    assert_eq!(processes[&1], BTreeSet::from([2]));
    assert_eq!(processes[&3], BTreeSet::from([2, 4]));
    let (processes, shown) = resolve_device_assignments(&[], &[test_copy(3, 1, -1, -1, -1)], &[8]);
    assert_eq!(shown, vec![BTreeSet::from([-1])]);
    assert_eq!(processes[&8], BTreeSet::from([-1]));
}

#[test]
fn synchronization_names_have_variants() {
    assert!(is_cuda_sync_api("cudaDeviceSynchronize"));
    assert!(is_cuda_sync_api("cudaDeviceSynchronize_v3020"));
    assert!(is_cuda_sync_api("cudaStreamSynchronize"));
    assert!(is_cuda_sync_api("cudaStreamSynchronize_ptsz"));
    assert!(!is_cuda_sync_api("cudaStreamSynchronizeX"));
    assert!(!is_cuda_sync_api("cudaEventSynchronize"));
    assert!(!is_cuda_sync_api(""));
}

#[test]
fn lanes_are_reused_and_as_few_as_possible() {
    let mut intervals = vec![(5, 9, 1), (0, 6, 0), (6, 7, 2), (9, 9, 3)];
    assert_eq!(allocate_interval_lanes(&mut intervals), vec![(0, 0), (1, 1), (2, 0), (3, 0)]);
    assert_eq!(intervals, vec![(0, 6, 0), (5, 9, 1), (6, 7, 2), (9, 9, 3)]);
    let mut none: Vec<(i64, i64, i64)> = Vec::new();
    assert!(allocate_interval_lanes(&mut none).is_empty());
    assert!(allocate_laminar_lanes(&mut none).is_empty());
}
