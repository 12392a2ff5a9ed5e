//! What the kinds of copies, memories and devices mean.
use crate::devices::{
    active_devices, candidates, copy_devices, copy_names, copy_track, copy_track_text, direction_text,
    inherited_devices, is_device_to_device, is_device_to_host, is_host_to_device, is_pcie, kernel_names, known_devices,
    memory_text, own_devices, primary_device, process_devices, slug,
};
use crate::model::{pid_of, Kernel, Memcpy};
use crate::order::{lemma_integers_keyed, lists, ordered, precedes};
use crate::text::{decimal, digit, digits};
use vstd::prelude::*;

verus! {

/// Copies are named by where they come from and where they go, and unified memory apart.
pub proof fn lemma_directions(kind: i64)
    ensures
        kind == 1 ==> direction_text(kind) == "H2D"@,
        kind == 2 ==> direction_text(kind) == "D2H"@,
        kind == 3 || kind == 8 ==> direction_text(kind) == "D2D"@,
        kind == 11 ==> direction_text(kind) == "Unified H2D"@,
        kind == 12 ==> direction_text(kind) == "Unified D2H"@,
        kind == 13 ==> direction_text(kind) == "Unified D2D"@,
        !set![1i64, 2i64, 3i64, 8i64, 11i64, 12i64, 13i64].contains(kind) ==> direction_text(kind) == "Unknown"@,
{
}

/// In names of events the directions are in lower case, with underscores.
pub proof fn lemma_direction_slugs(kind: i64)
    ensures
        kind == 1 ==> slug(direction_text(kind)) == "h2d"@,
        kind == 2 ==> slug(direction_text(kind)) == "d2h"@,
        kind == 3 || kind == 8 ==> slug(direction_text(kind)) == "d2d"@,
        kind == 11 ==> slug(direction_text(kind)) == "unified_h2d"@,
        kind == 12 ==> slug(direction_text(kind)) == "unified_d2h"@,
        kind == 13 ==> slug(direction_text(kind)) == "unified_d2d"@,
        !set![1i64, 2i64, 3i64, 8i64, 11i64, 12i64, 13i64].contains(kind) ==> slug(direction_text(kind)) == "unknown"@,
{
    reveal_strlit("H2D");
    reveal_strlit("D2H");
    reveal_strlit("D2D");
    reveal_strlit("Unified H2D");
    reveal_strlit("Unified D2H");
    reveal_strlit("Unified D2D");
    reveal_strlit("Unknown");
    reveal_strlit("h2d");
    reveal_strlit("d2h");
    reveal_strlit("d2d");
    reveal_strlit("unified_h2d");
    reveal_strlit("unified_d2h");
    reveal_strlit("unified_d2d");
    reveal_strlit("unknown");
    assert(slug("H2D"@) =~= "h2d"@);
    assert(slug("D2H"@) =~= "d2h"@);
    assert(slug("D2D"@) =~= "d2d"@);
    assert(slug("Unified H2D"@) =~= "unified_h2d"@);
    assert(slug("Unified D2H"@) =~= "unified_d2h"@);
    assert(slug("Unified D2D"@) =~= "unified_d2d"@);
    assert(slug("Unknown"@) =~= "unknown"@);
}

/// Memory is named by its kind.
pub proof fn lemma_memory_kinds(kind: i64)
    ensures
        kind == 0 ==> memory_text(kind) == "Pageable"@,
        kind == 1 ==> memory_text(kind) == "Pinned"@,
        kind == 2 ==> memory_text(kind) == "Device"@,
        kind == 3 ==> memory_text(kind) == "Array"@,
        kind == 4 ==> memory_text(kind) == "Managed"@,
        kind == 5 ==> memory_text(kind) == "Device Static"@,
        kind == 6 ==> memory_text(kind) == "Managed Static"@,
        !(0 <= kind <= 6) ==> memory_text(kind) == "Unknown"@,
{
}

/// Copies that touch the host, and only those, travel over PCIe and are shown on the
/// PCIe track; copies between devices have a track of their own.
pub proof fn lemma_copy_tracks(kind: i64)
    ensures
        is_pcie(kind) <==> set![1i64, 2i64, 11i64, 12i64].contains(kind),
        is_host_to_device(kind) <==> set![1i64, 11i64].contains(kind),
        is_device_to_host(kind) <==> set![2i64, 12i64].contains(kind),
        is_device_to_device(kind) <==> set![3i64, 8i64, 13i64].contains(kind),
        set![1i64, 2i64, 11i64, 12i64].contains(kind) ==> copy_track_text(copy_track(kind)) == "PCIe Usage"@,
        set![3i64, 8i64, 13i64].contains(kind) ==> copy_track_text(copy_track(kind)) == "GPU Copy D2D"@,
        !set![1i64, 2i64, 3i64, 8i64, 11i64, 12i64, 13i64].contains(kind) ==> copy_track_text(copy_track(kind))
            == "CUDA Copy Unknown"@,
{
}

/// A copy names the device that performed it, its destination unless that is the host,
/// and its source unless that is the host; numbers below zero name none.
pub open spec fn names_device(copy: Memcpy, d: i64) -> bool {
    let kind = copy.copy_kind;
    &&& d >= 0
    &&& {
        ||| d == copy.device
        ||| set![1i64, 11i64, 3i64, 8i64, 13i64].contains(kind) && d == copy.dst_device
        ||| set![2i64, 12i64, 3i64, 8i64, 13i64].contains(kind) && d == copy.src_device
    }
}

pub proof fn lemma_candidates(copy: Memcpy, d: i64)
    ensures
        candidates(copy).contains(d) <==> names_device(copy, d),
{
}

/// The primary device of a copy is one of its devices: the one that performed it, or
/// else the one with the smallest number.
pub proof fn lemma_primary(copy: Memcpy, devices: Set<i64>)
    requires
        lists(ordered(devices), devices),
        !devices.is_empty(),
    ensures
        devices.contains(primary_device(copy, devices)),
        devices.contains(copy.device) ==> primary_device(copy, devices) == copy.device,
        !devices.contains(copy.device) ==> forall|d: i64| #[trigger]
            devices.contains(d) ==> primary_device(copy, devices) <= d,
{
    let v = ordered(devices);
    lemma_integers_keyed();
    let x = choose|x: i64| devices.contains(x);
    assert(devices.contains(x));
    assert(v.to_set().contains(x));
    assert(v.len() > 0);
    assert(v.to_set().contains(v[0]));
    assert forall|d: i64| #[trigger] devices.contains(d) implies v[0] <= d by {
        assert(v.to_set().contains(d));
        let i = choose|i: int| 0 <= i < v.len() && v[i] == d;
        if i > 0 {
            assert(precedes(v[0], v[i]));
        }
    }
}

/// A kernel or a copy of the process names the device.
pub open spec fn touches(kernels: Seq<Kernel>, memcpys: Seq<Memcpy>, pid: i64, d: i64) -> bool {
    ||| exists|k: int|
        0 <= k < kernels.len() && pid_of((#[trigger] kernels[k]).global_pid) == pid && kernels[k].device == d && d >= 0
    ||| exists|i: int|
        0 <= i < memcpys.len() && pid_of((#[trigger] memcpys[i]).global_pid) == pid && names_device(memcpys[i], d)
}

/// The devices of a process are those that its kernels and copies name; a process that
/// names none has all that any process names; and where none names any there is the
/// stand-in -1.
pub open spec fn has_device(kernels: Seq<Kernel>, memcpys: Seq<Memcpy>, pid: i64, d: i64) -> bool {
    if exists|x: i64| #[trigger] touches(kernels, memcpys, pid, x) {
        touches(kernels, memcpys, pid, d)
    } else if exists|p: i64, x: i64| #[trigger] touches(kernels, memcpys, p, x) {
        exists|p: i64| #[trigger] touches(kernels, memcpys, p, d)
    } else {
        d == -1
    }
}

proof fn lemma_own(kernels: Seq<Kernel>, memcpys: Seq<Memcpy>, pid: i64, d: i64)
    ensures
        own_devices(kernels, memcpys, pid).contains(d) == touches(kernels, memcpys, pid, d),
{
    if own_devices(kernels, memcpys, pid).contains(d) {
        if exists|i: int| 0 <= i < kernels.len() && kernel_names(#[trigger] kernels[i], pid, d) {
            let i = choose|i: int| 0 <= i < kernels.len() && kernel_names(#[trigger] kernels[i], pid, d);
            assert(pid_of(kernels[i].global_pid) == pid);
        } else {
            let i = choose|i: int| 0 <= i < memcpys.len() && copy_names(#[trigger] memcpys[i], pid, d);
            lemma_candidates(memcpys[i], d);
            assert(names_device(memcpys[i], d));
        }
    }
    if touches(kernels, memcpys, pid, d) {
        if exists|k: int|
            0 <= k < kernels.len() && pid_of((#[trigger] kernels[k]).global_pid) == pid && kernels[k].device == d && d
                >= 0 {
            let k = choose|k: int|
                0 <= k < kernels.len() && pid_of((#[trigger] kernels[k]).global_pid) == pid && kernels[k].device == d
                    && d >= 0;
            assert(kernel_names(kernels[k], pid, d));
        } else {
            let i = choose|i: int|
                0 <= i < memcpys.len() && pid_of((#[trigger] memcpys[i]).global_pid) == pid && names_device(
                    memcpys[i],
                    d,
                );
            lemma_candidates(memcpys[i], d);
            assert(copy_names(memcpys[i], pid, d));
        }
    }
}

proof fn lemma_fallback(kernels: Seq<Kernel>, memcpys: Seq<Memcpy>, pid: i64, d: i64)
    ensures
        (if own_devices(kernels, memcpys, pid).is_empty() {
            inherited_devices(kernels, memcpys)
        } else {
            own_devices(kernels, memcpys, pid)
        }).contains(d) == has_device(kernels, memcpys, pid, d),
        own_devices(kernels, memcpys, pid).is_empty() <==> !exists|x: i64| #[trigger] touches(kernels, memcpys, pid, x),
{
    let own = own_devices(kernels, memcpys, pid);
    assert forall|x: i64| #[trigger] touches(kernels, memcpys, pid, x) implies !own.is_empty() by {
        lemma_own(kernels, memcpys, pid, x);
        assert(own.contains(x));
    }
    if !own.is_empty() {
        let x = choose|x: i64| own.contains(x);
        assert(own.contains(x));
        lemma_own(kernels, memcpys, pid, x);
        assert(touches(kernels, memcpys, pid, x));
    }
    lemma_own(kernels, memcpys, pid, d);
    let known = known_devices(kernels, memcpys);
    assert forall|p: i64, x: i64| #[trigger] touches(kernels, memcpys, p, x) implies known.contains(x) by {
        lemma_own(kernels, memcpys, p, x);
        assert(own_devices(kernels, memcpys, p).contains(x));
    }
    assert forall|x: i64| #[trigger] known.contains(x) implies exists|p: i64| #[trigger] touches(kernels, memcpys, p, x) by {
        let p = choose|p: i64| #[trigger] own_devices(kernels, memcpys, p).contains(x);
        assert(own_devices(kernels, memcpys, p).contains(x));
        lemma_own(kernels, memcpys, p, x);
        assert(touches(kernels, memcpys, p, x));
    }
    if !known.is_empty() {
        let x = choose|x: i64| known.contains(x);
        assert(known.contains(x));
        let p = choose|p: i64| #[trigger] touches(kernels, memcpys, p, x);
        assert(touches(kernels, memcpys, p, x));
    } else if exists|p: i64, x: i64| #[trigger] touches(kernels, memcpys, p, x) {
        let (p, x) = choose|p: i64, x: i64| #[trigger] touches(kernels, memcpys, p, x);
        assert(known.contains(x));
    }
}

/// A copy is shown on the devices that it names, or on those of its process where it
/// names none.
pub proof fn lemma_copy_devices(kernels: Seq<Kernel>, memcpys: Seq<Memcpy>, copy: Memcpy, d: i64)
    ensures
        copy_devices(kernels, memcpys, copy).contains(d) <==> (if exists|x: i64| #[trigger] names_device(copy, x) {
            names_device(copy, d)
        } else {
            has_device(kernels, memcpys, pid_of(copy.global_pid), d)
        }),
{
    let pid = pid_of(copy.global_pid);
    assert forall|x: i64| #[trigger] candidates(copy).contains(x) <==> names_device(copy, x) by {
        lemma_candidates(copy, x);
    }
    if exists|x: i64| #[trigger] names_device(copy, x) {
        let x = choose|x: i64| #[trigger] names_device(copy, x);
        assert(candidates(copy).contains(x));
    } else if !candidates(copy).is_empty() {
        let x = choose|x: i64| candidates(copy).contains(x);
        assert(candidates(copy).contains(x));
    }
    lemma_fallback(kernels, memcpys, pid, d);
}

/// The processes that have devices are those with activity and those that are asked
/// for, and each has the devices that it names or inherits.
pub proof fn lemma_process_devices(kernels: Seq<Kernel>, memcpys: Seq<Memcpy>, extra: Seq<i64>, pid: i64, d: i64)
    ensures
        process_devices(kernels, memcpys, extra).contains_key(pid) <==> {
            ||| extra.contains(pid)
            ||| exists|x: i64| #[trigger] touches(kernels, memcpys, pid, x)
            ||| exists|i: int| 0 <= i < memcpys.len() && pid_of((#[trigger] memcpys[i]).global_pid) == pid
        },
        process_devices(kernels, memcpys, extra).contains_key(pid) ==> (process_devices(kernels, memcpys, extra)[pid].contains(
            d,
        ) <==> has_device(kernels, memcpys, pid, d)),
{
    let own = own_devices(kernels, memcpys, pid);
    let active = active_devices(kernels, memcpys, pid);
    let inherited = inherited_devices(kernels, memcpys);
    lemma_fallback(kernels, memcpys, pid, d);
    assert(!inherited.is_empty()) by {
        if known_devices(kernels, memcpys).is_empty() {
            assert(inherited.contains(-1i64));
        }
    }
    let copying = exists|i: int| 0 <= i < memcpys.len() && pid_of((#[trigger] memcpys[i]).global_pid) == pid;
    if own.is_empty() {
        assert forall|i: int| 0 <= i < memcpys.len() && pid_of((#[trigger] memcpys[i]).global_pid) == pid implies copy_devices(
            kernels,
            memcpys,
            memcpys[i],
        ) == inherited by {
            assert forall|x: i64| !candidates(memcpys[i]).contains(x) by {
                if candidates(memcpys[i]).contains(x) {
                    assert(copy_names(memcpys[i], pid, x));
                    assert(own.contains(x));
                }
            }
            assert(candidates(memcpys[i]) =~= Set::empty());
        }
        if copying {
            let i = choose|i: int| 0 <= i < memcpys.len() && pid_of((#[trigger] memcpys[i]).global_pid) == pid;
            assert(copy_devices(kernels, memcpys, memcpys[i]) == inherited);
            assert(active =~= inherited);
        } else {
            assert(active =~= Set::empty());
        }
    } else {
        assert forall|x: i64| #[trigger] active.contains(x) implies own.contains(x) by {
            if !own.contains(x) {
                let i = choose|i: int|
                    0 <= i < memcpys.len() && pid_of((#[trigger] memcpys[i]).global_pid) == pid && copy_devices(
                        kernels,
                        memcpys,
                        memcpys[i],
                    ).contains(x);
                assert(copy_names(memcpys[i], pid, x));
            }
        }
        assert(active =~= own);
    }
}

/// A digit says its value.
proof fn lemma_digit(d: int)
    requires
        0 <= d <= 9,
    ensures
        digit(d) as int == 48 + d,
{
}

/// What a text of digits reads as.
pub open spec fn reads(text: Seq<char>) -> int
    decreases text.len(),
{
    if text.len() == 0 {
        0
    } else {
        10 * reads(text.drop_last()) + (text.last() as int - 48)
    }
}

proof fn lemma_digits_read(n: nat)
    ensures
        reads(digits(n)) == n,
        digits(n).len() > 0,
        forall|i: int| 0 <= i < digits(n).len() ==> 48 <= (#[trigger] digits(n)[i]) as int <= 57,
        n > 0 ==> digits(n)[0] as int != 48,
        n == 0 ==> digits(n).len() == 1,
    decreases n,
{
    let t = digits(n);
    if n < 10 {
        lemma_digit(n as int);
        assert(t.drop_last() =~= Seq::empty());
        assert(reads(t.drop_last()) == 0);
    } else {
        lemma_digits_read(n / 10);
        lemma_digit((n % 10) as int);
        assert(t.drop_last() =~= digits(n / 10));
        assert forall|i: int| 0 <= i < t.len() implies 48 <= (#[trigger] t[i]) as int <= 57 by {
            if i < digits(n / 10).len() {
                assert(t[i] == digits(n / 10)[i]);
            }
        }
    }
}

/// Numbers are written in decimal: digits only, without leading zeros, that read as the
/// number; a negative number is a minus sign before its positive counterpart.
pub proof fn lemma_decimal_reads_back(n: int)
    ensures
        n >= 0 ==> reads(decimal(n)) == n && decimal(n).len() > 0,
        n >= 0 ==> forall|i: int| 0 <= i < decimal(n).len() ==> 48 <= (#[trigger] decimal(n)[i]) as int <= 57,
        n > 0 ==> decimal(n)[0] as int != 48,
        n == 0 ==> decimal(n).len() == 1,
        n < 0 ==> decimal(n) == seq!['-'] + decimal(-n),
{
    if n >= 0 {
        lemma_digits_read(n as nat);
    }
}

} // verus!
