//! Which devices memory copies and processes belong to.
use crate::model::{pid_of, source_pid, Kernel, Memcpy};
use crate::order::{keyed, lemma_integers_keyed, ordered, ordered_vec};
use crate::seqs::lemma_take_set;
use std::collections::{BTreeMap, BTreeSet};
use vstd::prelude::*;

verus! {

pub open spec fn is_host_to_device(copy_kind: i64) -> bool {
    copy_kind == 1 || copy_kind == 11
}

pub open spec fn is_device_to_host(copy_kind: i64) -> bool {
    copy_kind == 2 || copy_kind == 12
}

pub open spec fn is_device_to_device(copy_kind: i64) -> bool {
    copy_kind == 3 || copy_kind == 8 || copy_kind == 13
}

/// The direction shown for a kind of copy.
pub open spec fn direction_text(copy_kind: i64) -> Seq<char> {
    if copy_kind == 1 {
        "H2D"@
    } else if copy_kind == 2 {
        "D2H"@
    } else if copy_kind == 3 || copy_kind == 8 {
        "D2D"@
    } else if copy_kind == 11 {
        "Unified H2D"@
    } else if copy_kind == 12 {
        "Unified D2H"@
    } else if copy_kind == 13 {
        "Unified D2D"@
    } else {
        "Unknown"@
    }
}

pub fn copy_direction(copy_kind: i64) -> (direction: &'static str)
    ensures
        direction@ == direction_text(copy_kind),
{
    match copy_kind {
        1 => "H2D",
        2 => "D2H",
        3 | 8 => "D2D",
        11 => "Unified H2D",
        12 => "Unified D2H",
        13 => "Unified D2D",
        _ => "Unknown",
    }
}

/// A direction as part of an event type: letters in lower case, spaces as underscores.
pub open spec fn slug_char(c: char) -> char {
    if c == ' ' {
        '_'
    } else if 'A' <= c <= 'Z' {
        (c as int + 32) as char
    } else {
        c
    }
}

pub open spec fn slug(s: Seq<char>) -> Seq<char> {
    Seq::new(s.len(), |i: int| slug_char(s[i]))
}

pub fn direction_slug(copy_kind: i64) -> (text: &'static str)
    ensures
        text@ == slug(direction_text(copy_kind)),
{
    proof {
        reveal_strlit("H2D");
        reveal_strlit("h2d");
        reveal_strlit("D2H");
        reveal_strlit("d2h");
        reveal_strlit("D2D");
        reveal_strlit("d2d");
        reveal_strlit("Unified H2D");
        reveal_strlit("unified_h2d");
        reveal_strlit("Unified D2H");
        reveal_strlit("unified_d2h");
        reveal_strlit("Unified D2D");
        reveal_strlit("unified_d2d");
        reveal_strlit("Unknown");
        reveal_strlit("unknown");
    }
    let text = match copy_kind {
        1 => "h2d",
        2 => "d2h",
        3 | 8 => "d2d",
        11 => "unified_h2d",
        12 => "unified_d2h",
        13 => "unified_d2d",
        _ => "unknown",
    };
    assert(text@ =~= slug(direction_text(copy_kind)));
    text
}

pub open spec fn memory_text(kind: i64) -> Seq<char> {
    if kind == 0 {
        "Pageable"@
    } else if kind == 1 {
        "Pinned"@
    } else if kind == 2 {
        "Device"@
    } else if kind == 3 {
        "Array"@
    } else if kind == 4 {
        "Managed"@
    } else if kind == 5 {
        "Device Static"@
    } else if kind == 6 {
        "Managed Static"@
    } else {
        "Unknown"@
    }
}

pub fn memory_kind(kind: i64) -> (text: &'static str)
    ensures
        text@ == memory_text(kind),
{
    match kind {
        0 => "Pageable",
        1 => "Pinned",
        2 => "Device",
        3 => "Array",
        4 => "Managed",
        5 => "Device Static",
        6 => "Managed Static",
        _ => "Unknown",
    }
}

/// The place of a kind of copy among the copy tracks of a device, which are
/// ordered by name.
pub open spec fn copy_track(copy_kind: i64) -> i64 {
    if is_pcie(copy_kind) {
        2
    } else if is_device_to_device(copy_kind) {
        1
    } else {
        0
    }
}

pub open spec fn copy_track_text(track: i64) -> Seq<char> {
    if track == 2 {
        "PCIe Usage"@
    } else if track == 1 {
        "GPU Copy D2D"@
    } else {
        "CUDA Copy Unknown"@
    }
}

pub fn copy_track_rank(copy_kind: i64) -> (track: i64)
    ensures
        track == copy_track(copy_kind),
{
    match copy_kind {
        1 | 2 | 11 | 12 => 2,
        3 | 8 | 13 => 1,
        _ => 0,
    }
}

pub fn copy_track_label(track: i64) -> (name: &'static str)
    ensures
        name@ == copy_track_text(track),
{
    match track {
        2 => "PCIe Usage",
        1 => "GPU Copy D2D",
        _ => "CUDA Copy Unknown",
    }
}

pub fn copy_track_name(copy_kind: i64) -> (name: &'static str)
    ensures
        name@ == copy_track_text(copy_track(copy_kind)),
{
    copy_track_label(copy_track_rank(copy_kind))
}

/// Copies between host and device travel over PCIe.
pub open spec fn is_pcie(copy_kind: i64) -> bool {
    is_host_to_device(copy_kind) || is_device_to_host(copy_kind)
}

pub fn is_pcie_copy(copy_kind: i64) -> (r: bool)
    ensures
        r == is_pcie(copy_kind),
{
    matches!(copy_kind, 1 | 2 | 11 | 12)
}

/// The devices that a copy itself names: the one that performed it and, by its
/// kind, its source or destination.
pub open spec fn candidates(copy: Memcpy) -> Set<i64> {
    Set::new(
        |d: i64|
            d >= 0 && (d == copy.device || (is_host_to_device(copy.copy_kind) && d == copy.dst_device) || (
            is_device_to_host(copy.copy_kind) && d == copy.src_device) || (is_device_to_device(copy.copy_kind) && (
            d == copy.src_device || d == copy.dst_device))),
    )
}

pub fn copy_device_candidates(copy: &Memcpy) -> (devices: BTreeSet<i64>)
    ensures
        devices@ == candidates(*copy),
{
    proof {
        lemma_integers_keyed();
    }
    let mut devices: BTreeSet<i64> = BTreeSet::new();
    if copy.device >= 0 {
        devices.insert(copy.device);
    }
    match copy.copy_kind {
        1 | 11 => {
            if copy.dst_device >= 0 {
                devices.insert(copy.dst_device);
            }
        },
        2 | 12 => {
            if copy.src_device >= 0 {
                devices.insert(copy.src_device);
            }
        },
        3 | 8 | 13 => {
            if copy.src_device >= 0 {
                devices.insert(copy.src_device);
            }
            if copy.dst_device >= 0 {
                devices.insert(copy.dst_device);
            }
        },
        _ => {},
    }
    assert(devices@ =~= candidates(*copy));
    devices
}

/// The device on whose timeline a copy is drawn.
pub open spec fn primary_device(copy: Memcpy, devices: Set<i64>) -> i64 {
    if devices.contains(copy.device) {
        copy.device
    } else {
        ordered(devices)[0]
    }
}

pub fn primary_copy_device(copy: &Memcpy, devices: &BTreeSet<i64>) -> (device: i64)
    requires
        !devices@.is_empty(),
    ensures
        device == primary_device(*copy, devices@),
        devices@.contains(device),
{
    proof {
        lemma_integers_keyed();
    }
    if devices.contains(&copy.device) {
        copy.device
    } else {
        let listed = ordered_vec(devices);
        proof {
            if listed@.len() == 0 {
                assert(devices@ =~= Set::empty());
            }
            assert(listed@.to_set().contains(listed@[0]));
        }
        listed[0]
    }
}

pub open spec fn kernel_names(kernel: Kernel, pid: i64, device: i64) -> bool {
    pid_of(kernel.global_pid) == pid && kernel.device == device && device >= 0
}

pub open spec fn copy_names(copy: Memcpy, pid: i64, device: i64) -> bool {
    pid_of(copy.global_pid) == pid && candidates(copy).contains(device)
}

/// The devices that the activities of a process name.
pub open spec fn own_devices(kernels: Seq<Kernel>, memcpys: Seq<Memcpy>, pid: i64) -> Set<i64> {
    Set::new(
        |d: i64|
            {
                ||| exists|i: int| 0 <= i < kernels.len() && kernel_names(#[trigger] kernels[i], pid, d)
                ||| exists|i: int| 0 <= i < memcpys.len() && copy_names(#[trigger] memcpys[i], pid, d)
            },
    )
}

/// Every device named in the trace.
pub open spec fn known_devices(kernels: Seq<Kernel>, memcpys: Seq<Memcpy>) -> Set<i64> {
    Set::new(|d: i64| exists|pid: i64| #[trigger] own_devices(kernels, memcpys, pid).contains(d))
}

/// What a process without devices of its own is given: every known device, or the
/// stand-in device -1.
pub open spec fn inherited_devices(kernels: Seq<Kernel>, memcpys: Seq<Memcpy>) -> Set<i64> {
    if known_devices(kernels, memcpys).is_empty() {
        set![-1i64]
    } else {
        known_devices(kernels, memcpys)
    }
}

/// The devices on which a copy is shown.
pub open spec fn copy_devices(kernels: Seq<Kernel>, memcpys: Seq<Memcpy>, copy: Memcpy) -> Set<i64> {
    let own = own_devices(kernels, memcpys, pid_of(copy.global_pid));
    if !candidates(copy).is_empty() {
        candidates(copy)
    } else if !own.is_empty() {
        own
    } else {
        inherited_devices(kernels, memcpys)
    }
}

/// The devices of a process: those its activities name, and those its copies are shown on.
pub open spec fn active_devices(kernels: Seq<Kernel>, memcpys: Seq<Memcpy>, pid: i64) -> Set<i64> {
    Set::new(
        |d: i64|
            {
                ||| own_devices(kernels, memcpys, pid).contains(d)
                ||| exists|i: int|
                    0 <= i < memcpys.len() && pid_of((#[trigger] memcpys[i]).global_pid) == pid && copy_devices(
                        kernels,
                        memcpys,
                        memcpys[i],
                    ).contains(d)
            },
    )
}

/// The devices of every process: processes without activity inherit.
pub open spec fn process_devices(kernels: Seq<Kernel>, memcpys: Seq<Memcpy>, extra: Seq<i64>) -> Map<
    i64,
    Set<i64>,
> {
    Map::new(
        |pid: i64| !active_devices(kernels, memcpys, pid).is_empty() || extra.contains(pid),
        |pid: i64|
            if active_devices(kernels, memcpys, pid).is_empty() {
                inherited_devices(kernels, memcpys)
            } else {
                active_devices(kernels, memcpys, pid)
            },
    )
}

/// The contents of a map of sets.
pub open spec fn set_views(m: Map<i64, BTreeSet<i64>>) -> Map<i64, Set<i64>> {
    Map::new(|pid: i64| m.contains_key(pid), |pid: i64| m[pid]@)
}

fn extend_set(set: &mut BTreeSet<i64>, more: &BTreeSet<i64>)
    ensures
        final(set)@ == old(set)@.union(more@),
{
    proof {
        lemma_integers_keyed();
    }
    let listed = ordered_vec(more);
    let ghost before = set@;
    for i in 0..listed.len()
        invariant
            keyed::<i64>(),
            set@ == before.union(listed@.take(i as int).to_set()),
    {
        set.insert(listed[i]);
        proof {
            lemma_take_set(listed@, i as int);
            assert(set@ =~= before.union(listed@.take(i + 1).to_set()));
        }
    }
    proof {
        assert(listed@.take(listed@.len() as int) =~= listed@);
        assert(set@ =~= before.union(more@));
    }
}

/// The set kept for a process, empty when there is none.
pub open spec fn kept(m: Map<i64, Set<i64>>, pid: i64) -> Set<i64> {
    if m.contains_key(pid) {
        m[pid]
    } else {
        Set::empty()
    }
}

fn add_devices(devices: &mut BTreeMap<i64, BTreeSet<i64>>, pid: i64, more: &BTreeSet<i64>)
    ensures
        set_views(final(devices)@) == set_views(old(devices)@).insert(
            pid,
            kept(set_views(old(devices)@), pid).union(more@),
        ),
{
    proof {
        lemma_integers_keyed();
    }
    let ghost before = devices@;
    let mut set: BTreeSet<i64> = match devices.remove(&pid) {
        Some(set) => set,
        None => BTreeSet::new(),
    };
    extend_set(&mut set, more);
    devices.insert(pid, set);
    assert(set_views(devices@) =~= set_views(before).insert(pid, kept(set_views(before), pid).union(more@)));
}

/// The processes whose activities name devices, with those devices.
spec fn own_map(kernels: Seq<Kernel>, memcpys: Seq<Memcpy>) -> Map<i64, Set<i64>> {
    Map::new(
        |pid: i64| !own_devices(kernels, memcpys, pid).is_empty(),
        |pid: i64| own_devices(kernels, memcpys, pid),
    )
}

proof fn lemma_own_kernel(kernels: Seq<Kernel>, memcpys: Seq<Memcpy>, i: int, pid: i64)
    requires
        0 <= i < kernels.len(),
    ensures
        own_devices(kernels.take(i + 1), memcpys, pid) == own_devices(kernels.take(i), memcpys, pid).union(
            Set::new(|d: i64| kernel_names(kernels[i], pid, d)),
        ),
{
    let after = kernels.take(i + 1);
    let before = kernels.take(i);
    assert(after[i] == kernels[i]);
    assert forall|d: i64|
        own_devices(after, memcpys, pid).contains(d) <==> own_devices(before, memcpys, pid).union(
            Set::new(|d: i64| kernel_names(kernels[i], pid, d)),
        ).contains(d) by {
        if exists|k: int| 0 <= k < after.len() && kernel_names(#[trigger] after[k], pid, d) {
            let k = choose|k: int| 0 <= k < after.len() && kernel_names(#[trigger] after[k], pid, d);
            if k < i {
                assert(before[k] == after[k]);
            }
        }
        if exists|k: int| 0 <= k < before.len() && kernel_names(#[trigger] before[k], pid, d) {
            let k = choose|k: int| 0 <= k < before.len() && kernel_names(#[trigger] before[k], pid, d);
            assert(before[k] == after[k]);
        }
    }
    assert(own_devices(after, memcpys, pid) =~= own_devices(before, memcpys, pid).union(
        Set::new(|d: i64| kernel_names(kernels[i], pid, d)),
    ));
}

proof fn lemma_own_copy(kernels: Seq<Kernel>, memcpys: Seq<Memcpy>, i: int, pid: i64)
    requires
        0 <= i < memcpys.len(),
    ensures
        own_devices(kernels, memcpys.take(i + 1), pid) == own_devices(kernels, memcpys.take(i), pid).union(
            Set::new(|d: i64| copy_names(memcpys[i], pid, d)),
        ),
{
    let after = memcpys.take(i + 1);
    let before = memcpys.take(i);
    assert(after[i] == memcpys[i]);
    assert forall|d: i64|
        own_devices(kernels, after, pid).contains(d) <==> own_devices(kernels, before, pid).union(
            Set::new(|d: i64| copy_names(memcpys[i], pid, d)),
        ).contains(d) by {
        if exists|k: int| 0 <= k < after.len() && copy_names(#[trigger] after[k], pid, d) {
            let k = choose|k: int| 0 <= k < after.len() && copy_names(#[trigger] after[k], pid, d);
            if k < i {
                assert(before[k] == after[k]);
            }
        }
        if exists|k: int| 0 <= k < before.len() && copy_names(#[trigger] before[k], pid, d) {
            let k = choose|k: int| 0 <= k < before.len() && copy_names(#[trigger] before[k], pid, d);
            assert(before[k] == after[k]);
        }
    }
    assert(own_devices(kernels, after, pid) =~= own_devices(kernels, before, pid).union(
        Set::new(|d: i64| copy_names(memcpys[i], pid, d)),
    ));
}

/// Naming `more` devices for `pid` keeps the map and the known devices in step.
proof fn lemma_own_map_step(
    kernels: Seq<Kernel>,
    memcpys: Seq<Memcpy>,
    kernels1: Seq<Kernel>,
    memcpys1: Seq<Memcpy>,
    pid: i64,
    more: Set<i64>,
)
    requires
        !more.is_empty(),
        own_devices(kernels1, memcpys1, pid) == own_devices(kernels, memcpys, pid).union(more),
        forall|p: i64|
            p != pid ==> #[trigger] own_devices(kernels1, memcpys1, p) == own_devices(kernels, memcpys, p),
    ensures
        own_map(kernels1, memcpys1) == own_map(kernels, memcpys).insert(
            pid,
            kept(own_map(kernels, memcpys), pid).union(more),
        ),
        known_devices(kernels1, memcpys1) == known_devices(kernels, memcpys).union(more),
{
    let own = own_devices(kernels, memcpys, pid);
    let own1 = own_devices(kernels1, memcpys1, pid);
    let x = more.choose();
    assert(more.contains(x)) by {
        if forall|d: i64| !more.contains(d) {
            assert(more =~= Set::empty());
        }
    }
    assert(own1.contains(x));
    assert(!own1.is_empty());
    if own.is_empty() {
        assert(own =~= Set::empty());
        assert(own1 =~= more);
        assert(Set::<i64>::empty().union(more) =~= more);
    }
    let next = own_map(kernels, memcpys).insert(pid, kept(own_map(kernels, memcpys), pid).union(more));
    assert forall|p: i64| own_map(kernels1, memcpys1).contains_key(p) <==> next.contains_key(p) by {}
    assert forall|p: i64| own_map(kernels1, memcpys1).contains_key(p) implies own_map(kernels1, memcpys1)[p]
        == next[p] by {}
    assert(own_map(kernels1, memcpys1) =~= next);
    assert forall|d: i64|
        known_devices(kernels1, memcpys1).contains(d) <==> known_devices(kernels, memcpys).union(more).contains(
            d,
        ) by {
        if known_devices(kernels1, memcpys1).contains(d) {
            let p = choose|p: i64| #[trigger] own_devices(kernels1, memcpys1, p).contains(d);
            assert(own_devices(kernels, memcpys, p).contains(d) || more.contains(d));
        }
        if known_devices(kernels, memcpys).contains(d) {
            let p = choose|p: i64| #[trigger] own_devices(kernels, memcpys, p).contains(d);
            assert(own_devices(kernels1, memcpys1, p).contains(d));
        }
        if more.contains(d) {
            assert(own1.contains(d));
        }
    }
    assert(known_devices(kernels1, memcpys1) =~= known_devices(kernels, memcpys).union(more));
}

proof fn lemma_own_map_still(
    kernels: Seq<Kernel>,
    memcpys: Seq<Memcpy>,
    kernels1: Seq<Kernel>,
    memcpys1: Seq<Memcpy>,
)
    requires
        forall|p: i64| #[trigger] own_devices(kernels1, memcpys1, p) == own_devices(kernels, memcpys, p),
    ensures
        own_map(kernels1, memcpys1) == own_map(kernels, memcpys),
        known_devices(kernels1, memcpys1) == known_devices(kernels, memcpys),
{
    assert(own_map(kernels1, memcpys1) =~= own_map(kernels, memcpys));
    assert forall|d: i64|
        known_devices(kernels1, memcpys1).contains(d) <==> known_devices(kernels, memcpys).contains(d) by {
        if known_devices(kernels1, memcpys1).contains(d) {
            let p = choose|p: i64| #[trigger] own_devices(kernels1, memcpys1, p).contains(d);
            assert(own_devices(kernels, memcpys, p).contains(d));
        }
        if known_devices(kernels, memcpys).contains(d) {
            let p = choose|p: i64| #[trigger] own_devices(kernels, memcpys, p).contains(d);
            assert(own_devices(kernels1, memcpys1, p).contains(d));
        }
    }
    assert(known_devices(kernels1, memcpys1) =~= known_devices(kernels, memcpys));
}

/// The devices that activities name, by process and over all.
fn named_devices(kernels: &[Kernel], memcpys: &[Memcpy]) -> (named: (BTreeMap<i64, BTreeSet<i64>>, BTreeSet<i64>))
    ensures
        set_views(named.0@) == own_map(kernels@, memcpys@),
        named.1@ == known_devices(kernels@, memcpys@),
{
    proof {
        lemma_integers_keyed();
    }
    let mut own: BTreeMap<i64, BTreeSet<i64>> = BTreeMap::new();
    let mut known: BTreeSet<i64> = BTreeSet::new();
    let ghost no_copies = memcpys@.take(0);
    proof {
        let no_kernels = kernels@.take(0);
        assert forall|pid: i64| #[trigger] own_devices(no_kernels, no_copies, pid).is_empty() by {
            assert(own_devices(no_kernels, no_copies, pid) =~= Set::empty());
        }
        assert(set_views(own@) =~= own_map(no_kernels, no_copies));
        assert forall|d: i64| !known_devices(no_kernels, no_copies).contains(d) by {
            if known_devices(no_kernels, no_copies).contains(d) {
                let p = choose|p: i64| #[trigger] own_devices(no_kernels, no_copies, p).contains(d);
                assert(own_devices(no_kernels, no_copies, p).is_empty());
            }
        }
        assert(known@ =~= known_devices(no_kernels, no_copies));
    }
    for i in 0..kernels.len()
        invariant
            keyed::<i64>(),
            no_copies == memcpys@.take(0),
            set_views(own@) == own_map(kernels@.take(i as int), no_copies),
            known@ == known_devices(kernels@.take(i as int), no_copies),
    {
        let pid: i64 = source_pid(kernels[i].global_pid);
        let device: i64 = kernels[i].device;
        let ghost before = kernels@.take(i as int);
        let ghost after = kernels@.take(i + 1);
        proof {
            assert forall|p: i64| p != pid || device < 0 implies #[trigger] own_devices(after, no_copies, p)
                == own_devices(before, no_copies, p) by {
                lemma_own_kernel(kernels@, no_copies, i as int, p);
                assert(own_devices(after, no_copies, p) =~= own_devices(before, no_copies, p));
            }
        }
        if device >= 0 {
            let mut single: BTreeSet<i64> = BTreeSet::new();
            single.insert(device);
            add_devices(&mut own, pid, &single);
            extend_set(&mut known, &single);
            proof {
                lemma_own_kernel(kernels@, no_copies, i as int, pid);
                assert(Set::new(|d: i64| kernel_names(kernels@[i as int], pid, d)) =~= single@);
                assert(single@.contains(device));
                lemma_own_map_step(before, no_copies, after, no_copies, pid, single@);
            }
        } else {
            proof {
                lemma_own_map_still(before, no_copies, after, no_copies);
            }
        }
    }
    assert(kernels@.take(kernels@.len() as int) =~= kernels@);
    for i in 0..memcpys.len()
        invariant
            keyed::<i64>(),
            set_views(own@) == own_map(kernels@, memcpys@.take(i as int)),
            known@ == known_devices(kernels@, memcpys@.take(i as int)),
    {
        let pid: i64 = source_pid(memcpys[i].global_pid);
        let named = copy_device_candidates(&memcpys[i]);
        let ghost before = memcpys@.take(i as int);
        let ghost after = memcpys@.take(i + 1);
        proof {
            assert forall|p: i64| p != pid || named@.is_empty() implies #[trigger] own_devices(kernels@, after, p)
                == own_devices(kernels@, before, p) by {
                lemma_own_copy(kernels@, memcpys@, i as int, p);
                if named@.is_empty() {
                    assert(forall|d: i64| !named@.contains(d));
                }
                assert(own_devices(kernels@, after, p) =~= own_devices(kernels@, before, p));
            }
        }
        if !named.is_empty() {
            add_devices(&mut own, pid, &named);
            extend_set(&mut known, &named);
            proof {
                lemma_own_copy(kernels@, memcpys@, i as int, pid);
                assert(Set::new(|d: i64| copy_names(memcpys@[i as int], pid, d)) =~= named@);
                lemma_own_map_step(kernels@, before, kernels@, after, pid, named@);
            }
        } else {
            proof {
                lemma_own_map_still(kernels@, before, kernels@, after);
            }
        }
    }
    assert(memcpys@.take(memcpys@.len() as int) =~= memcpys@);
    (own, known)
}

spec fn active_upto(kernels: Seq<Kernel>, memcpys: Seq<Memcpy>, n: int, pid: i64) -> Set<i64> {
    Set::new(
        |d: i64|
            {
                ||| own_devices(kernels, memcpys, pid).contains(d)
                ||| exists|i: int|
                    0 <= i < n && pid_of((#[trigger] memcpys[i]).global_pid) == pid && copy_devices(
                        kernels,
                        memcpys,
                        memcpys[i],
                    ).contains(d)
            },
    )
}

spec fn active_map(kernels: Seq<Kernel>, memcpys: Seq<Memcpy>, n: int) -> Map<i64, Set<i64>> {
    Map::new(
        |pid: i64| !active_upto(kernels, memcpys, n, pid).is_empty(),
        |pid: i64| active_upto(kernels, memcpys, n, pid),
    )
}

proof fn lemma_inhabited(s: Set<i64>)
    ensures
        s.is_empty() <==> forall|d: i64| !s.contains(d),
{
    if forall|d: i64| !s.contains(d) {
        assert(s =~= Set::empty());
    }
}

/// A copy is always shown somewhere.
proof fn lemma_inherited_not_empty(kernels: Seq<Kernel>, memcpys: Seq<Memcpy>)
    ensures
        !inherited_devices(kernels, memcpys).is_empty(),
{
    lemma_inhabited(inherited_devices(kernels, memcpys));
    assert(set![-1i64].contains(-1i64));
}

/// Every copy is shown on a device.
pub proof fn lemma_copies_have_devices(kernels: Seq<Kernel>, memcpys: Seq<Memcpy>, copy: Memcpy)
    ensures
        !copy_devices(kernels, memcpys, copy).is_empty(),
{
    lemma_inherited_not_empty(kernels, memcpys);
}

proof fn lemma_active_step(kernels: Seq<Kernel>, memcpys: Seq<Memcpy>, i: int)
    requires
        0 <= i < memcpys.len(),
    ensures
        ({
            let pid = pid_of(memcpys[i].global_pid);
            let m = active_map(kernels, memcpys, i);
            active_map(kernels, memcpys, i + 1) == m.insert(
                pid,
                kept(m, pid).union(copy_devices(kernels, memcpys, memcpys[i])),
            )
        }),
{
    let pid = pid_of(memcpys[i].global_pid);
    let m = active_map(kernels, memcpys, i);
    let shown = copy_devices(kernels, memcpys, memcpys[i]);
    lemma_copies_have_devices(kernels, memcpys, memcpys[i]);
    lemma_inhabited(shown);
    let next = m.insert(pid, kept(m, pid).union(shown));
    assert forall|p: i64| #[trigger] active_upto(kernels, memcpys, i + 1, p) == (if p == pid {
        active_upto(kernels, memcpys, i, p).union(shown)
    } else {
        active_upto(kernels, memcpys, i, p)
    }) by {
        let before = active_upto(kernels, memcpys, i, p);
        let after = active_upto(kernels, memcpys, i + 1, p);
        assert forall|d: i64| after.contains(d) <==> (before.contains(d) || (p == pid && shown.contains(d))) by {
            if after.contains(d) && !own_devices(kernels, memcpys, p).contains(d) {
                let k = choose|k: int|
                    0 <= k < i + 1 && pid_of((#[trigger] memcpys[k]).global_pid) == p && copy_devices(
                        kernels,
                        memcpys,
                        memcpys[k],
                    ).contains(d);
                assert(pid_of(memcpys[k].global_pid) == p);
            }
        }
        if p == pid {
            assert(after =~= before.union(shown));
        } else {
            assert(after =~= before);
        }
    }
    assert forall|p: i64| active_map(kernels, memcpys, i + 1).contains_key(p) <==> next.contains_key(p) by {
        let after = active_upto(kernels, memcpys, i + 1, p);
        lemma_inhabited(after);
    }
    assert forall|p: i64| active_map(kernels, memcpys, i + 1).contains_key(p) implies active_map(
        kernels,
        memcpys,
        i + 1,
    )[p] == next[p] by {
        let before = active_upto(kernels, memcpys, i, p);
        lemma_inhabited(before);
        if p == pid && before.is_empty() {
            assert(before.union(shown) =~= Set::empty().union(shown));
        }
    }
    assert(active_map(kernels, memcpys, i + 1) =~= next);
}

/// Assigns devices to processes and to copies. A device number is local to its
/// process; a process of `extra_pids` without devices of its own inherits every
/// device of the trace.
pub fn resolve_device_assignments(kernels: &[Kernel], memcpys: &[Memcpy], extra_pids: &[i64]) -> (assigned: (
    BTreeMap<i64, BTreeSet<i64>>,
    Vec<BTreeSet<i64>>,
))
    ensures
        set_views(assigned.0@) == process_devices(kernels@, memcpys@, extra_pids@),
        assigned.1@.len() == memcpys@.len(),
        forall|i: int|
            0 <= i < memcpys@.len() ==> (#[trigger] assigned.1@[i])@ == copy_devices(
                kernels@,
                memcpys@,
                memcpys@[i],
            ),
{
    proof {
        lemma_integers_keyed();
    }
    let (mut process, known) = named_devices(kernels, memcpys);
    let inherited: BTreeSet<i64> = if known.is_empty() {
        let mut unknown: BTreeSet<i64> = BTreeSet::new();
        unknown.insert(-1);
        unknown
    } else {
        known.clone()
    };
    assert(inherited@ =~= inherited_devices(kernels@, memcpys@));
    let mut shown: Vec<BTreeSet<i64>> = Vec::new();
    for i in 0..memcpys.len()
        invariant
            keyed::<i64>(),
            set_views(process@) == own_map(kernels@, memcpys@),
            inherited@ == inherited_devices(kernels@, memcpys@),
            shown@.len() == i,
            forall|k: int|
                0 <= k < i ==> (#[trigger] shown@[k])@ == copy_devices(kernels@, memcpys@, memcpys@[k]),
    {
        let named = copy_device_candidates(&memcpys[i]);
        let pid: i64 = source_pid(memcpys[i].global_pid);
        let ghost own = own_devices(kernels@, memcpys@, pid);
        let devices: BTreeSet<i64> = if !named.is_empty() {
            named
        } else {
            assert(set_views(process@).contains_key(pid) <==> !own.is_empty());
            match process.get(&pid) {
                Some(devices) => {
                    assert(set_views(process@)[pid] == devices@);
                    devices.clone()
                },
                None => inherited.clone(),
            }
        };
        shown.push(devices);
    }
    assert(own_map(kernels@, memcpys@) =~= active_map(kernels@, memcpys@, 0)) by {
        assert forall|pid: i64| #[trigger] active_upto(kernels@, memcpys@, 0, pid) == own_devices(
            kernels@,
            memcpys@,
            pid,
        ) by {
            assert(active_upto(kernels@, memcpys@, 0, pid) =~= own_devices(kernels@, memcpys@, pid));
        }
    }
    for i in 0..memcpys.len()
        invariant
            shown@.len() == memcpys@.len(),
            forall|k: int|
                0 <= k < shown@.len() ==> (#[trigger] shown@[k])@ == copy_devices(
                    kernels@,
                    memcpys@,
                    memcpys@[k],
                ),
            set_views(process@) == active_map(kernels@, memcpys@, i as int),
    {
        add_devices(&mut process, source_pid(memcpys[i].global_pid), &shown[i]);
        proof {
            lemma_active_step(kernels@, memcpys@, i as int);
        }
    }
    proof {
        assert forall|pid: i64| #[trigger] active_upto(kernels@, memcpys@, memcpys@.len() as int, pid)
            == active_devices(kernels@, memcpys@, pid) by {
            assert(active_upto(kernels@, memcpys@, memcpys@.len() as int, pid) =~= active_devices(
                kernels@,
                memcpys@,
                pid,
            ));
        }
        assert(set_views(process@) =~= process_devices(kernels@, memcpys@, extra_pids@.take(0)));
        lemma_inherited_not_empty(kernels@, memcpys@);
    }
    for i in 0..extra_pids.len()
        invariant
            keyed::<i64>(),
            inherited@ == inherited_devices(kernels@, memcpys@),
            !inherited@.is_empty(),
            set_views(process@) == process_devices(kernels@, memcpys@, extra_pids@.take(i as int)),
    {
        let pid: i64 = extra_pids[i];
        let ghost before = set_views(process@);
        let ghost seen = extra_pids@.take(i as int);
        let ghost now = extra_pids@.take(i + 1);
        let settled = process.contains_key(&pid);
        if !settled {
            process.insert(pid, inherited.clone());
            assert(set_views(process@) =~= before.insert(pid, inherited@));
        }
        proof {
            assert(now[i as int] == pid);
            assert forall|p: i64| now.contains(p) <==> (seen.contains(p) || p == pid) by {
                if now.contains(p) {
                    let k = choose|k: int| 0 <= k < now.len() && now[k] == p;
                    if k < i {
                        assert(seen[k] == p);
                    }
                }
                if seen.contains(p) {
                    let k = choose|k: int| 0 <= k < seen.len() && seen[k] == p;
                    assert(now[k] == p);
                }
            }
            assert(before.contains_key(pid) == settled);
            let after = process_devices(kernels@, memcpys@, now);
            assert forall|p: i64| set_views(process@).contains_key(p) <==> after.contains_key(p) by {}
            assert forall|p: i64| after.contains_key(p) implies set_views(process@)[p] == after[p] by {}
            assert(set_views(process@) =~= process_devices(kernels@, memcpys@, now));
        }
    }
    assert(extra_pids@.take(extra_pids@.len() as int) =~= extra_pids@);
    (process, shown)
}

} // verus!
