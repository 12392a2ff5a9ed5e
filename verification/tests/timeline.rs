use nsys2perfetto::emit::{emit_outputs, try_emit_outputs, Timeline};
use nsys2perfetto::event::{Arg, ArgValue, TraceEvent};
use nsys2perfetto::model::{Kernel, Memcpy, NvtxRange, RuntimeCall, GLOBAL_ID_RADIX};
use nsys2perfetto::scene::EmitInput;
use nsys2perfetto::slices::EmitError;
use nsys2perfetto::trace::{convert, prepare, summary_line, Conversion, Records, TraceError};
use std::collections::BTreeMap;

/// The first arrow number of the report "rep".
const REP: u64 = 7_555_656 << 30;
const LAUNCH: u64 = REP;
const MEMCPY: u64 = REP + 1;
const CORE: u64 = REP + 2;
const PCIE: u64 = REP + 3;

fn kernel(pid: i64, device: i64, stream: i64, correlation: i64, start: i64, end: i64) -> Kernel {
    Kernel {
        start,
        end,
        device,
        context: 1,
        stream,
        correlation,
        global_pid: pid * GLOBAL_ID_RADIX,
        name: "gemm".into(),
        grid: [2, 3, 4],
        block: [32, 1, 1],
        sequence: 0,
        event_id: String::new(),
        launch_call: None,
        nvtx_regions: Vec::new(),
    }
}

fn copy(pid: i64, kind: i64, device: i64, correlation: i64, start: i64, end: i64) -> Memcpy {
    Memcpy {
        start,
        end,
        device,
        context: 1,
        stream: 7,
        correlation,
        global_pid: pid * GLOBAL_ID_RADIX,
        bytes: 2048,
        copy_kind: kind,
        src_kind: 1,
        dst_kind: 2,
        src_device: -1,
        src_context: -1,
        dst_device: device,
        dst_context: -1,
        graph_node: -1,
        virtual_address: "0".into(),
        copy_count: 1,
        event_id: String::new(),
        launch_call: None,
    }
}

fn call(pid: i64, tid: i64, correlation: i64, start: i64, end: i64, name: &str) -> RuntimeCall {
    RuntimeCall {
        start,
        end,
        global_tid: pid * GLOBAL_ID_RADIX + tid,
        correlation,
        name: name.into(),
        event_id: None,
    }
}

fn range(pid: i64, tid: i64, start: i64, end: i64, name: &str) -> NvtxRange {
    NvtxRange { start, end, name: name.into(), pid, tid, kernel_bounds: BTreeMap::new() }
}

fn sample() -> Records {
    Records {
        kernels: vec![kernel(42, 0, 7, 10, 1000, 1500)],
        memcpys: vec![copy(42, 1, 0, 9, 400, 500)],
        runtime: vec![
            call(42, 7, 9, 300, 350, "cudaMemcpyAsync"),
            call(42, 7, 10, 800, 850, "cudaLaunchKernel"),
            call(42, 7, 12, 1600, 1700, "cudaDeviceSynchronize"),
            call(42, 7, 8, 100, 110, "cudaMalloc"),
        ],
        nvtx: vec![range(42, 7, 200, 2000, "step")],
    }
}

fn converted(records: &mut Records) -> Conversion {
    match convert("rep", records) {
        Ok(conversion) => conversion,
        Err(error) => panic!("{}", error.message()),
    }
}

fn metadata(name: &str, tid: i64, pid: i64, arg: Arg) -> TraceEvent {
    TraceEvent {
        name: name.into(),
        ph: "M",
        cat: "__metadata",
        ts_ns: 0,
        dur_ns: None,
        tid,
        pid,
        args: vec![arg],
        id: None,
        bp: None,
    }
}

fn number(key: &'static str, n: i64) -> Arg {
    Arg { key, value: ArgValue::Int(n) }
}

fn text(key: &'static str, t: &str) -> Arg {
    Arg { key, value: ArgValue::Text(t.into()) }
}

const GPU: i64 = 2_000_000_000;

#[test]
fn metadata_names_every_track() {
    let timeline = converted(&mut sample()).timeline;
    let mut expected = vec![
        metadata("process_name", 0, GPU, text("name", "CUDA Device 0 / Source PID 42")),
        metadata("process_sort_index", 0, GPU, number("sort_index", -10_000)),
    ];
    for (tid, name, sort) in [
        (1, "CUDA HW Context 1 / Stream 7", 1),
        (400_000_000, "CUDA Core Timeline", -300),
        (500_000_000, "PCIe Usage", -200),
        (1_000_000_000, "NVTX Kernel 7", 1_000_000),
        (1_100_000_000, "CUDA API 7 / Lane 1", 1_000_040),
        (1_200_000_000, "NVTX Thread 7", 1_000_020),
    ] {
        expected.push(metadata("thread_name", tid, GPU, text("name", name)));
        expected.push(metadata("thread_sort_index", tid, GPU, number("sort_index", sort)));
    }
    assert_eq!(timeline.events[..14], expected[..]);
}

#[test]
fn shown_calls_have_slices_and_rows() {
    let timeline = converted(&mut sample()).timeline;
    let calls: Vec<&TraceEvent> = timeline.events.iter().filter(|e| e.cat == "cuda_api").collect();
    assert_eq!(calls.len(), 3);
    assert_eq!(calls[0].name, "cudaMemcpyAsync");
    assert_eq!((calls[0].ts_ns, calls[0].dur_ns), (100, Some(50)));
    assert_eq!((calls[0].tid, calls[0].pid), (1_100_000_000, GPU));
    assert_eq!(
        calls[2].args,
        vec![
            number("correlationId", 12),
            text("eventId", "rep:cuda_api_sync:42:7:12:2"),
            number("cpuStartNs", 1600),
            number("cpuEndNs", 1700),
            number("cpuDurationNs", 100),
            number("deviceId", 0),
        ]
    );
    let row = &timeline.rows[2];
    assert_eq!(row.event_type, "cuda_api");
    assert_eq!(row.pid, "CUDA Device 0 / Source PID 42");
    assert_eq!(row.tid, "CUDA API Thread 7");
    assert_eq!(row.event_id.as_deref(), Some("rep:cuda_api_sync:42:7:12:2"));
    assert_eq!(row.correlation_id, Some(12));
    assert_eq!((row.ts_ns, row.dur_ns, row.aligned_ns), (1400, Some(100), 1400));
}

#[test]
fn every_kernel_is_on_its_stream_and_once_on_the_core_timeline() {
    let timeline = converted(&mut sample()).timeline;
    let stream: Vec<&TraceEvent> = timeline.events.iter().filter(|e| e.cat == "cuda").collect();
    let core: Vec<&TraceEvent> = timeline.events.iter().filter(|e| e.cat == "cuda_kernel_usage").collect();
    assert_eq!((stream.len(), core.len()), (1, 1));
    assert_eq!((stream[0].tid, core[0].tid), (1, 400_000_000));
    assert_eq!((core[0].ts_ns, core[0].dur_ns), (800, Some(500)));
    assert_eq!(
        stream[0].args,
        vec![
            number("correlationId", 10),
            number("contextId", 1),
            number("streamId", 7),
            Arg { key: "streamSequence", value: ArgValue::Count(1) },
            text("eventId", "rep:cuda:42:0:1:7:1"),
            Arg { key: "launchEventId", value: ArgValue::MaybeText(Some("rep:cuda_api:42:7:10:1".into())) },
            number("gpuStartNs", 1000),
            number("gpuEndNs", 1500),
            number("gpuDurationNs", 500),
            number("sourceProcessId", 42),
            number("deviceId", 0),
            Arg { key: "grid", value: ArgValue::Ints(vec![2, 3, 4]) },
            Arg { key: "block", value: ArgValue::Ints(vec![32, 1, 1]) },
            Arg { key: "NVTXRegions", value: ArgValue::Texts(vec!["step".into()]) },
        ]
    );
    let row = &timeline.rows[3];
    assert_eq!(row.event_type, "cuda_kernel");
    assert_eq!(row.tid, "Context 1 / Stream 7");
    assert_eq!(row.launch_event_id.as_deref(), Some("rep:cuda_api:42:7:10:1"));
    assert_eq!((row.stream_id, row.stream_sequence), (Some(7), Some(1)));
    assert_eq!((row.device_id, row.metric_id, row.metric_value), (None, None, None));
}

#[test]
fn launches_have_arrows_to_stream_and_core_timeline() {
    let timeline = converted(&mut sample()).timeline;
    let flows: Vec<(&str, &str, i64, i64, Option<u64>, Option<&str>)> = timeline
        .events
        .iter()
        .filter(|e| e.id.is_some())
        .map(|e| (e.cat, e.ph, e.ts_ns, e.tid, e.id, e.bp))
        .collect();
    assert_eq!(
        flows,
        vec![
            ("cuda_launch_dependency", "s", 649, 1_100_000_000, Some(LAUNCH), None),
            ("cuda_launch_dependency", "f", 801, 1, Some(LAUNCH), Some("e")),
            ("cuda_core_launch_dependency", "s", 649, 1_100_000_000, Some(CORE), None),
            ("cuda_core_launch_dependency", "f", 801, 400_000_000, Some(CORE), Some("e")),
            ("cuda_memcpy_dependency", "s", 149, 1_100_000_000, Some(MEMCPY), None),
            ("cuda_memcpy_dependency", "f", 201, 1, Some(MEMCPY), Some("e")),
            ("pcie_usage_dependency", "s", 149, 1_100_000_000, Some(PCIE), None),
            ("pcie_usage_dependency", "f", 201, 500_000_000, Some(PCIE), Some("e")),
        ]
    );
    let core = timeline.events.iter().find(|e| e.cat == "cuda_core_launch_dependency").unwrap();
    assert_eq!(core.args.last(), Some(&text("targetTrack", "CUDA Core Timeline")));
    assert!(core.args.contains(&Arg { key: "launchLatencyUs", value: ArgValue::Micros(150) }));
    assert!(core.args.contains(&Arg { key: "kernelStartMinusApiEndUs", value: ArgValue::Micros(150) }));
    let pcie = timeline.events.iter().find(|e| e.cat == "pcie_usage_dependency").unwrap();
    assert_eq!(pcie.name, "pcie_usage_h2d");
    assert_eq!(pcie.args.last(), Some(&text("targetTrack", "PCIe Usage")));
}

#[test]
fn copies_are_on_their_stream_and_on_the_pcie_track() {
    let timeline = converted(&mut sample()).timeline;
    let stream = timeline.events.iter().find(|e| e.cat == "cuda_memcpy").unwrap();
    assert_eq!(stream.name, "CUDA Memcpy H2D");
    assert_eq!((stream.tid, stream.ts_ns, stream.dur_ns), (1, 200, Some(100)));
    assert!(stream.args.contains(&Arg { key: "bandwidthGBps", value: ArgValue::Rate(Some((2048, 100))) }));
    assert!(stream.args.contains(&Arg { key: "displayDeviceIds", value: ArgValue::Ints(vec![0]) }));
    assert!(stream.args.contains(&text("srcMemoryKind", "Pinned")));
    assert_eq!(stream.args.len(), 27);
    let usage: Vec<&TraceEvent> = timeline.events.iter().filter(|e| e.cat == "cuda_copy_usage").collect();
    assert_eq!(usage.len(), 1);
    assert_eq!((usage[0].tid, usage[0].pid), (500_000_000, GPU));
    assert_eq!(timeline.rows[4].event_type, "cuda_memcpy_h2d");
    assert_eq!(timeline.pcie_usage_launch_dependencies, 1);
}

#[test]
fn ranges_are_sorted_begin_and_end_events() {
    let timeline = converted(&mut sample()).timeline;
    let marks: Vec<(&str, &str, i64, i64)> = timeline.events[29..]
        .iter()
        .map(|e| (e.cat, e.ph, e.ts_ns, e.tid))
        .collect();
    assert_eq!(
        marks,
        vec![
            ("nvtx-kernel", "B", 800, 1_000_000_000),
            ("nvtx-kernel", "E", 1300, 1_000_000_000),
            ("nvtx", "B", 0, 1_200_000_000),
            ("nvtx", "E", 1800, 1_200_000_000),
        ]
    );
    assert_eq!(
        timeline.events[29].args,
        vec![number("sourcePid", 42), number("sourceTid", 7), number("deviceId", 0)]
    );
    assert_eq!(timeline.rows[5].event_type, "nvtx");
    assert_eq!(timeline.rows[5].tid, "NVTX Thread 7");
    assert_eq!(timeline.rows[6].event_type, "nvtx_kernel");
    assert_eq!(timeline.rows[6].tid, "NVTX Kernel Thread 7");
    assert_eq!((timeline.rows[6].ts_ns, timeline.rows[6].dur_ns), (800, Some(500)));
}

#[test]
fn nested_ranges_open_outside_in_and_close_inside_out() {
    let mut records = Records {
        kernels: Vec::new(),
        memcpys: Vec::new(),
        runtime: Vec::new(),
        nvtx: vec![
            range(1, 1, 0, 50, "inner start"),
            range(1, 1, 0, 100, "outer"),
            range(1, 1, 60, 100, "inner end"),
            range(1, 1, 50, 60, "between"),
        ],
    };
    let timeline = converted(&mut records).timeline;
    let marks: Vec<(&str, &str)> = timeline
        .events
        .iter()
        .filter(|e| e.cat == "nvtx")
        .map(|e| (e.ph, e.name.as_str()))
        .collect();
    assert_eq!(
        marks,
        vec![
            ("B", "outer"),
            ("B", "inner start"),
            ("E", "inner start"),
            ("B", "between"),
            ("E", "between"),
            ("B", "inner end"),
            ("E", "inner end"),
            ("E", "outer"),
        ]
    );
    assert_eq!(timeline.events[0].args, vec![text("name", "CUDA Device -1 / Source PID 1")]);
}

#[test]
fn summary_reports_every_figure() {
    let conversion = converted(&mut sample());
    assert_eq!(
        summary_line("rep", &conversion.summary),
        "report=rep kernels=1 cuda_api=3 cuda_sync_api=1 launch_dependencies=1 core_launch_dependencies=1 memcpy=1 \
         h2d=1 d2h=0 d2d=0 memcpy_launch_dependencies=1 pcie_usage_launch_dependencies=1 nvtx=1 nvtx_kernel=1 \
         stream_dependencies=0 json_events=33 parquet_rows=7 anchor_ns=200 alignment_anchor=first_trace_event"
    );
    assert_eq!(conversion.timeline.events.len(), 33);
    assert_eq!(conversion.timeline.rows.len(), 7);
    assert!(conversion.timeline.dependencies.is_empty());
}

#[test]
fn the_first_measured_batch_is_the_anchor() {
    let mut records = sample();
    records.nvtx.push(range(42, 7, 700, 900, "CriticalPath/MeasuredBatch/run/batch_0"));
    records.nvtx.push(range(42, 7, 600, 650, "CriticalPath/MeasuredBatch/run/batch_1"));
    let conversion = converted(&mut records);
    assert_eq!((conversion.summary.anchor_ns, conversion.summary.measured), (700, true));
    assert_eq!(conversion.timeline.rows[0].aligned_ns, -400);
    assert!(summary_line("r", &conversion.summary).ends_with("alignment_anchor=critical_path_batch_0"));
}

#[test]
fn an_empty_trace_has_no_timeline() {
    let mut records = Records {
        kernels: Vec::new(),
        memcpys: Vec::new(),
        runtime: Vec::new(),
        nvtx: Vec::new(),
    };
    match convert("rep", &mut records) {
        Ok(_) => panic!("nothing can be shown"),
        Err(error) => {
            assert_eq!(error, TraceError::NoEvents);
            assert_eq!(
                error.message(),
                "trace contains no CUDA kernel, memcpy, linked API, or NVTX ranges"
            );
        }
    }
}

#[test]
fn calls_are_shown_when_there_is_no_activity() {
    let mut records = Records {
        kernels: Vec::new(),
        memcpys: Vec::new(),
        runtime: vec![call(3, 4, 9, 100, 200, "cudaMalloc")],
        nvtx: Vec::new(),
    };
    let conversion = converted(&mut records);
    assert_eq!(records.runtime[0].event_id.as_deref(), Some("rep:cuda_api_unlinked:3:4:9:0"));
    assert_eq!(conversion.summary.cuda_api, 1);
    assert_eq!(conversion.timeline.rows[0].pid, "CUDA Device -1 / Source PID 3");
}

#[test]
fn processes_without_activity_inherit_every_device() {
    let mut records = Records {
        kernels: vec![kernel(42, 0, 7, 10, 1000, 1500), kernel(42, 1, 7, 11, 1000, 1500)],
        memcpys: Vec::new(),
        runtime: vec![call(9, 4, 9, 100, 200, "cudaDeviceSynchronize")],
        nvtx: vec![range(8, 1, 10, 20, "host only")],
    };
    let timeline = converted(&mut records).timeline;
    let labels: Vec<String> = timeline.rows.iter().map(|row| format!("{} {}", row.cat, row.pid)).collect();
    assert_eq!(
        labels,
        vec![
            "cuda_api CUDA Device 0 / Source PID 9",
            "cuda_api CUDA Device 1 / Source PID 9",
            "cuda CUDA Device 0 / Source PID 42",
            "cuda CUDA Device 1 / Source PID 42",
            "nvtx CUDA Device 0 / Source PID 8",
            "nvtx CUDA Device 1 / Source PID 8",
        ]
    );
}

#[test]
fn crossing_kernels_get_lanes_on_stream_and_core_timeline() {
    let mut records = Records {
        kernels: vec![kernel(1, 0, 7, 1, 0, 10), kernel(1, 0, 7, 2, 5, 15), kernel(1, 0, 8, 3, 12, 20)],
        memcpys: Vec::new(),
        runtime: Vec::new(),
        nvtx: Vec::new(),
    };
    let timeline = converted(&mut records).timeline;
    let tids = |cat: &str| -> Vec<i64> {
        timeline.events.iter().filter(|e| e.cat == cat).map(|e| e.tid).collect()
    };
    assert_eq!(tids("cuda"), vec![1, 2, 3]);
    assert_eq!(tids("cuda_kernel_usage"), vec![400_000_000, 400_000_001, 400_000_000]);
    let names: Vec<&Arg> = timeline
        .events
        .iter()
        .filter(|e| e.name == "thread_name")
        .flat_map(|e| e.args.iter())
        .collect();
    assert_eq!(
        names,
        vec![
            &text("name", "CUDA HW Context 1 / Stream 7"),
            &text("name", "CUDA HW Context 1 / Stream 7 / Lane 2"),
            &text("name", "CUDA HW Context 1 / Stream 8"),
            &text("name", "CUDA Core Timeline"),
            &text("name", "CUDA Core Timeline / Lane 2"),
        ]
    );
}

#[test]
fn crossing_envelopes_move_to_an_adjacent_lane() {
    let mut records = Records {
        kernels: vec![
            kernel(1, 0, 7, 1, 100, 200),
            kernel(1, 0, 8, 2, 150, 300),
            kernel(1, 0, 9, 3, 110, 120),
        ],
        memcpys: Vec::new(),
        runtime: vec![
            call(1, 5, 1, 11, 12, "a"),
            call(1, 5, 2, 31, 32, "b"),
            call(1, 5, 3, 15, 16, "c"),
        ],
        nvtx: vec![range(1, 5, 10, 20, "first"), range(1, 5, 30, 40, "second"), range(1, 5, 14, 18, "nested")],
    };
    let timeline = converted(&mut records).timeline;
    let begins: Vec<(&str, i64)> = timeline
        .events
        .iter()
        .filter(|e| e.cat == "nvtx-kernel" && e.ph == "B")
        .map(|e| (e.name.as_str(), e.tid))
        .collect();
    assert_eq!(
        begins,
        vec![
            ("first", 1_000_000_000),
            ("nested", 1_000_000_000),
            ("second", 1_000_000_001),
        ]
    );
    let lane = timeline.events.iter().find(|e| e.name == "thread_name" && e.tid == 1_000_000_001).unwrap();
    assert_eq!(lane.args, vec![text("name", "NVTX Kernel 5 / Lane 2")]);
}

#[test]
fn device_numbers_of_processes_are_kept_apart() {
    let mut records = Records {
        kernels: vec![kernel(1, 0, 7, 1, 0, 10), kernel(2, 0, 7, 1, 0, 10)],
        memcpys: Vec::new(),
        runtime: Vec::new(),
        nvtx: Vec::new(),
    };
    let timeline = converted(&mut records).timeline;
    let pids: Vec<i64> = timeline.events.iter().filter(|e| e.cat == "cuda").map(|e| e.pid).collect();
    assert_eq!(pids, vec![GPU, GPU + 1]);
}

#[test]
fn copies_between_devices_have_no_pcie_arrows() {
    let mut records = Records {
        kernels: Vec::new(),
        memcpys: vec![copy(1, 8, 0, 4, 100, 100)],
        runtime: vec![call(1, 1, 4, 50, 60, "cudaMemcpyPeerAsync")],
        nvtx: Vec::new(),
    };
    let timeline = converted(&mut records).timeline;
    assert_eq!(timeline.pcie_usage_launch_dependencies, 0);
    assert!(timeline.events.iter().all(|e| e.cat != "pcie_usage_dependency"));
    let stream = timeline.events.iter().find(|e| e.cat == "cuda_memcpy").unwrap();
    assert!(stream.args.contains(&Arg { key: "bandwidthGBps", value: ArgValue::Rate(None) }));
    let track = timeline.events.iter().find(|e| e.name == "thread_name" && e.tid == 500_000_000).unwrap();
    assert_eq!(track.args, vec![text("name", "GPU Copy D2D")]);
}

#[test]
fn host_copies_point_at_every_device_they_touch() {
    let mut moved = copy(1, 1, 0, 4, 100, 120);
    moved.dst_device = 3;
    let mut records = Records {
        kernels: Vec::new(),
        memcpys: vec![moved],
        runtime: vec![call(1, 1, 4, 50, 60, "cudaMemcpyAsync")],
        nvtx: Vec::new(),
    };
    let timeline = converted(&mut records).timeline;
    let ids: Vec<Option<u64>> = timeline
        .events
        .iter()
        .filter(|e| e.cat == "pcie_usage_dependency")
        .map(|e| e.id)
        .collect();
    assert_eq!(ids, vec![Some(PCIE), Some(PCIE), Some(PCIE + 4), Some(PCIE + 4)]);
    assert_eq!(timeline.pcie_usage_launch_dependencies, 2);
}

fn drawn(records: &Records) -> Option<Result<Timeline, EmitError>> {
    try_emit_outputs(EmitInput {
        report: "rep",
        kernels: &records.kernels,
        memcpys: &records.memcpys,
        runtime: &records.runtime,
        nvtx: &records.nvtx,
        origin_ns: 0,
        anchor_ns: 0,
    })
}

#[test]
fn launches_must_name_their_call() {
    let mut records = sample();
    prepare("rep", &mut records);
    records.runtime[0].event_id = None;
    match drawn(&records) {
        Some(Err(error)) => {
            assert_eq!(error, EmitError::CopyLaunch);
            assert_eq!(error.message(), "memcpy API call has no event ID");
        }
        _ => panic!("the copy's call is not shown"),
    }
    records.runtime[1].event_id = None;
    match drawn(&records) {
        Some(Err(error)) => {
            assert_eq!(error, EmitError::KernelLaunch);
            assert_eq!(error.message(), "kernel launch call has no event ID");
        }
        _ => panic!("the kernel's call is not shown"),
    }
}

#[test]
fn references_must_have_a_place() {
    let mut records = sample();
    prepare("rep", &mut records);
    assert!(drawn(&records).is_some());
    records.kernels[0].launch_call = Some(99);
    assert!(drawn(&records).is_none());

    let mut records = sample();
    records.nvtx[0].kernel_bounds.insert(5, (1000, 1500));
    match convert("rep", &mut records) {
        Err(error) => {
            assert_eq!(error, TraceError::Unplaceable);
            assert_eq!(error.message(), "a record refers to a call or device without a track");
        }
        Ok(_) => panic!("the process of the range has no such device"),
    }
    assert_eq!(
        TraceError::Emit(EmitError::KernelLaunch).message(),
        "kernel launch call has no event ID"
    );
}

#[test]
fn a_prepared_trace_can_be_drawn_directly() {
    let mut records = sample();
    let links = prepare("rep", &mut records);
    assert_eq!(
        (links.launch_dependencies, links.memcpy_launch_dependencies, links.cuda_sync_api),
        (1, 1, 1)
    );
    let timeline = emit_outputs(EmitInput {
        report: "rep",
        kernels: &records.kernels,
        memcpys: &records.memcpys,
        runtime: &records.runtime,
        nvtx: &records.nvtx,
        origin_ns: 200,
        anchor_ns: 200,
    });
    match timeline {
        Ok(timeline) => assert_eq!(timeline.json_events, 33),
        Err(error) => panic!("{}", error.message()),
    }
}

/// Two kernels that overlap on two streams, two threads and two processes.
fn busy() -> Records {
    Records {
        kernels: vec![kernel(42, 0, 7, 10, 1000, 1500), kernel(42, 0, 8, 11, 1200, 1900), kernel(43, 1, 7, 10, 1100, 1300)],
        memcpys: vec![copy(42, 8, 0, 9, 400, 500)],
        runtime: vec![
            call(42, 7, 9, 300, 350, "cudaMemcpyAsync"),
            call(42, 7, 10, 800, 950, "cudaLaunchKernel"),
            call(42, 7, 11, 900, 960, "cudaLaunchKernel"),
            call(43, 9, 10, 900, 950, "cudaLaunchKernel"),
        ],
        nvtx: vec![range(42, 7, 200, 2000, "step"), range(42, 7, 850, 1000, "inner"), range(43, 9, 200, 2000, "step")],
    }
}

#[test]
fn overlapping_calls_are_on_different_lanes() {
    let timeline = converted(&mut busy()).timeline;
    let calls: Vec<(i64, i64)> =
        timeline.events.iter().filter(|e| e.cat == "cuda_api").map(|e| (e.ts_ns, e.tid)).collect();
    assert_eq!(calls, vec![(100, 1_100_000_000), (600, 1_100_000_000), (700, 1_100_000_001), (700, 1_100_000_002)]);
}

#[test]
fn every_slice_is_on_a_named_track_of_a_named_process() {
    let timeline = converted(&mut busy()).timeline;
    let mut slices: usize = 0;
    for event in timeline.events.iter() {
        assert!(timeline.events.iter().any(|e| e.name == "process_name" && e.pid == event.pid));
        if event.ph != "M" && event.id.is_none() {
            slices += 1;
            assert!(timeline
                .events
                .iter()
                .any(|e| e.name == "thread_name" && e.pid == event.pid && e.tid == event.tid));
        }
    }
    assert_eq!(slices, 4 + 3 * 2 + 2 + 3 * 4);
}

#[test]
fn every_track_replays_as_a_stack() {
    let timeline = converted(&mut busy()).timeline;
    let mut open: BTreeMap<(i64, i64), Vec<String>> = BTreeMap::new();
    for event in timeline.events.iter() {
        let stack = open.entry((event.pid, event.tid)).or_default();
        if event.ph == "B" {
            stack.push(event.name.clone());
        } else if event.ph == "E" {
            assert_eq!(stack.pop(), Some(event.name.clone()));
        }
    }
    assert!(open.values().all(|stack| stack.is_empty()));
}

#[test]
fn a_kernel_on_a_device_without_a_number_is_shown() {
    let mut records = sample();
    records.kernels[0].device = -1;
    let timeline = converted(&mut records).timeline;
    let processes: Vec<&Arg> =
        timeline.events.iter().filter(|e| e.name == "process_name").map(|e| &e.args[0]).collect();
    assert_eq!(
        processes,
        vec![&text("name", "CUDA Device -1 / Source PID 42"), &text("name", "CUDA Device 0 / Source PID 42")]
    );
    let kernels: Vec<i64> = timeline.events.iter().filter(|e| e.cat == "cuda").map(|e| e.pid).collect();
    assert_eq!(kernels, vec![GPU]);
}

fn flow_ids(report: &str) -> Vec<u64> {
    match convert(report, &mut sample()) {
        Ok(conversion) => conversion.timeline.events.iter().filter(|e| e.ph == "s").filter_map(|e| e.id).collect(),
        Err(error) => panic!("{}", error.message()),
    }
}

#[test]
fn reports_have_arrow_numbers_of_their_own() {
    assert_eq!(flow_ids("rep"), vec![LAUNCH, CORE, MEMCPY, PCIE]);
    assert_eq!(flow_ids(""), vec![1 << 30, (1 << 30) + 2, (1 << 30) + 1, (1 << 30) + 3]);
    let names = ["rep1", "rep2", "A!!", "MC~", "aata", "ckam", "rank-0001-of-8", "rank-0002-of-8", "rank-1000-of-8"];
    for (i, a) in names.iter().enumerate() {
        for b in names[..i].iter() {
            let others = flow_ids(b);
            assert!(flow_ids(a).iter().all(|id| !others.contains(id)));
        }
    }
}

/// The begin and end events of the tracks of one kind.
fn marks_of(records: &mut Records, cat: &str) -> Vec<(&'static str, String)> {
    converted(records)
        .timeline
        .events
        .iter()
        .filter(|e| e.cat == cat)
        .map(|e| (e.ph, e.name.clone()))
        .collect()
}

fn only_ranges(nvtx: Vec<NvtxRange>) -> Records {
    Records { kernels: Vec::new(), memcpys: Vec::new(), runtime: Vec::new(), nvtx }
}

fn texts(marks: &[(&'static str, &str)]) -> Vec<(&'static str, String)> {
    marks.iter().map(|(ph, name)| (*ph, name.to_string())).collect()
}

#[test]
fn ranges_that_take_no_time_stand_inside_what_is_around_them() {
    let mut inside = only_ranges(vec![range(1, 1, 0, 10, "outer"), range(1, 1, 5, 5, "mark")]);
    let around = texts(&[("B", "outer"), ("B", "mark"), ("E", "mark"), ("E", "outer")]);
    assert_eq!(marks_of(&mut inside, "nvtx"), around);
    let mut at_begin = only_ranges(vec![range(1, 1, 5, 5, "mark"), range(1, 1, 5, 10, "outer")]);
    assert_eq!(marks_of(&mut at_begin, "nvtx"), around);
    let mut at_end = only_ranges(vec![range(1, 1, 0, 5, "outer"), range(1, 1, 5, 5, "mark")]);
    assert_eq!(marks_of(&mut at_end, "nvtx"), around);
    let mut between =
        only_ranges(vec![range(1, 1, 0, 5, "first"), range(1, 1, 5, 10, "second"), range(1, 1, 5, 5, "mark")]);
    assert_eq!(
        marks_of(&mut between, "nvtx"),
        texts(&[("B", "first"), ("E", "first"), ("B", "second"), ("B", "mark"), ("E", "mark"), ("E", "second")])
    );
}

#[test]
fn an_envelope_that_takes_no_time_begins_before_it_ends() {
    let mut records = sample();
    records.kernels[0].end = 1000;
    assert_eq!(marks_of(&mut records, "nvtx-kernel"), texts(&[("B", "step"), ("E", "step")]));
}

#[test]
fn ranges_that_coincide_close_in_reverse_order() {
    let mut records = only_ranges(vec![range(1, 1, 0, 10, "a"), range(1, 1, 0, 10, "b")]);
    assert_eq!(
        marks_of(&mut records, "nvtx"),
        texts(&[("B", "a"), ("B", "b"), ("E", "b"), ("E", "a")])
    );
}

#[test]
fn the_kinds_of_a_thread_stay_in_order_with_many_lanes() {
    let mut records = Records { kernels: Vec::new(), memcpys: Vec::new(), runtime: Vec::new(), nvtx: Vec::new() };
    for i in 0..21 {
        records.kernels.push(kernel(42, 0, i, i, 1000 + 10 * i, 2000 + 10 * i));
        records.runtime.push(call(42, 7, i, 10 * i + 2, 10 * i + 3, "cudaLaunchKernel"));
        records.nvtx.push(range(42, 7, 10 * i, 10 * i + 5, "step"));
    }
    let timeline = converted(&mut records).timeline;
    let place = |tid: i64| match timeline.events.iter().find(|e| e.name == "thread_sort_index" && e.tid == tid) {
        Some(event) => event.args.clone(),
        None => Vec::new(),
    };
    assert_eq!(place(1_000_000_000), vec![number("sort_index", 1_000_000)]);
    assert_eq!(place(1_000_000_020), vec![number("sort_index", 1_000_020)]);
    assert_eq!(place(1_200_000_000), vec![number("sort_index", 1_000_021)]);
    assert_eq!(place(1_100_000_000), vec![number("sort_index", 1_000_042)]);
}
