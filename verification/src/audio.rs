//! Sharing what the machine plays, without the voices of a running call.
use std::collections::VecDeque;

use vstd::arithmetic::div_mod::lemma_fundamental_div_mod_converse;
use vstd::prelude::*;

use crate::text::{digits, joined_text, law_parts_occur, lines, occurs_in, push_number, same};
use crate::time::{elapsed, span};

verus! {

pub const SAMPLE_RATE: u32 = 48_000;

pub const CHANNELS: usize = 2;

pub const FRAME_SAMPLES: usize = 960;

pub const BYTES_PER_SAMPLE: usize = 4;

/// The bytes of one sample of every channel.
pub const BLOCK_ALIGN: usize = 8;

/// The bytes of one frame.
pub const FRAME_BYTES: usize = 7_680;

/// How often the processes are looked through for the one to leave out.
pub const EXCLUSION_RESCAN_INTERVAL: u64 = 2_000_000_000;

/// The buffer of a process-loopback client, in units of 100 nanoseconds. The engine
/// does not tell the device's own period in that mode, and heeds none.
pub const PROCESS_LOOPBACK_PERIOD_HNS: i64 = 200_000;

/// The parent of the first process listed with this id.
pub open spec fn first_parent(processes: Seq<(u32, u32)>, pid: u32) -> Option<u32>
    decreases processes.len(),
{
    if processes.len() == 0 {
        None
    } else if processes.first().0 == pid {
        Some(processes.first().1)
    } else {
        first_parent(processes.drop_first(), pid)
    }
}

/// The process `steps` steps above `pid`, as far up as the processes are listed.
pub open spec fn ancestor(processes: Seq<(u32, u32)>, pid: u32, steps: nat) -> Option<u32>
    decreases steps,
{
    if steps == 0 {
        Some(pid)
    } else {
        match ancestor(processes, pid, (steps - 1) as nat) {
            Some(below) => first_parent(processes, below),
            None => None,
        }
    }
}

/// Whether `root` is `pid` or stands above it.
pub open spec fn is_above(processes: Seq<(u32, u32)>, root: u32, pid: u32) -> bool {
    exists|steps: nat| #[trigger] ancestor(processes, pid, steps) == Some(root)
}

/// Whether the walk up from `pid` stops: at `root`, or where no parent is listed.
pub open spec fn walk_stops(processes: Seq<(u32, u32)>, root: u32, pid: u32) -> bool {
    exists|steps: nat| #[trigger] stops_at(processes, root, pid, steps)
}

pub open spec fn stops_at(processes: Seq<(u32, u32)>, root: u32, pid: u32, steps: nat) -> bool {
    ancestor(processes, pid, steps) matches Some(reached) && (reached == root || first_parent(
        processes,
        reached,
    ) is None)
}

fn parent_of(processes: &[(u32, u32)], pid: u32) -> (parent: Option<u32>)
    ensures
        parent == first_parent(processes@, pid),
{
    let mut i: usize = 0;
    assert(processes@.skip(0) == processes@);
    while i < processes.len()
        invariant
            i <= processes@.len(),
            first_parent(processes@, pid) == first_parent(processes@.skip(i as int), pid),
        decreases processes@.len() - i,
    {
        let (listed, parent) = processes[i];
        assert(processes@.skip(i as int).drop_first() == processes@.skip(i + 1));
        if listed == pid {
            return Some(parent);
        }
        i += 1;
    }
    None
}

/// Above a process without a listed parent there is none.
proof fn lemma_top(processes: Seq<(u32, u32)>, pid: u32, top: nat, steps: nat)
    requires
        ancestor(processes, pid, top) matches Some(reached) && first_parent(processes, reached)
            is None,
        steps > top,
    ensures
        ancestor(processes, pid, steps) is None,
    decreases steps,
{
    if steps > top + 1 {
        lemma_top(processes, pid, top, (steps - 1) as nat);
    }
}

/// Walks up from `pid`.
fn walk_up(root: u32, pid: u32, processes: &[(u32, u32)]) -> (above: bool)
    requires
        walk_stops(processes@, root, pid),
    ensures
        above == is_above(processes@, root, pid),
{
    let ghost end = choose|steps: nat| #[trigger] stops_at(processes@, root, pid, steps);
    let ghost mut steps: nat = 0;
    let mut current: u32 = pid;
    loop
        invariant
            stops_at(processes@, root, pid, end),
            steps <= end,
            ancestor(processes@, pid, steps) == Some(current),
            forall|below: nat|
                below < steps ==> #[trigger] ancestor(processes@, pid, below) != Some(root),
        decreases end - steps,
    {
        if current == root {
            return true;
        }
        match parent_of(processes, current) {
            Some(next) => {
                proof {
                    assert(ancestor(processes@, pid, (steps + 1) as nat) == Some(next));
                    steps = steps + 1;
                }
                current = next;
            },
            None => {
                proof {
                    assert forall|other: nat| #[trigger]
                        ancestor(processes@, pid, other) != Some(root) by {
                        if other > steps {
                            lemma_top(processes@, pid, steps, other);
                        }
                    }
                }
                return false;
            },
        }
    }
}

/// The ids that are listed.
spec fn listed(processes: Seq<(u32, u32)>) -> Set<u32> {
    processes.map(|i: int, process: (u32, u32)| process.0).to_set()
}

proof fn lemma_listed(processes: Seq<(u32, u32)>, pid: u32)
    ensures
        listed(processes).contains(pid) == (first_parent(processes, pid) is Some),
    decreases processes.len(),
{
    let ids = processes.map(|i: int, process: (u32, u32)| process.0);
    if processes.len() > 0 {
        let rest = processes.drop_first().map(|i: int, process: (u32, u32)| process.0);
        lemma_listed(processes.drop_first(), pid);
        assert(ids.drop_first() == rest);
        if ids.contains(pid) {
            let i = choose|i: int| 0 <= i < ids.len() && ids[i] == pid;
            if i > 0 {
                assert(rest[i - 1] == pid);
            }
        }
        if rest.contains(pid) {
            let i = choose|i: int| 0 <= i < rest.len() && rest[i] == pid;
            assert(ids[i + 1] == pid);
        }
        assert(ids[0] == processes.first().0);
    }
}

/// A walk that comes back to where it was never leaves.
proof fn lemma_circle(
    processes: Seq<(u32, u32)>,
    pid: u32,
    from: nat,
    back: nat,
    steps: nat,
) -> (same: nat)
    requires
        from < back,
        ancestor(processes, pid, from) == ancestor(processes, pid, back),
        ancestor(processes, pid, back) is Some,
    ensures
        same < back,
        ancestor(processes, pid, steps) == ancestor(processes, pid, same),
    decreases steps,
{
    if steps < back {
        steps
    } else {
        let below = lemma_circle(processes, pid, from, back, (steps - 1) as nat);
        assert(ancestor(processes, pid, steps) == ancestor(processes, pid, (below + 1) as nat));
        if below + 1 < back {
            below + 1
        } else {
            from
        }
    }
}

/// A walk with more steps than there are processes goes round in a circle.
proof fn lemma_too_long(processes: Seq<(u32, u32)>, root: u32, pid: u32)
    requires
        forall|steps: nat|
            steps <= processes.len() ==> {
                &&& (#[trigger] ancestor(processes, pid, steps)) is Some
                &&& !stops_at(processes, root, pid, steps)
            },
    ensures
        !walk_stops(processes, root, pid),
{
    let count = (processes.len() + 1) as nat;
    let path = Seq::new(count, |k: int| ancestor(processes, pid, k as nat)->0);
    let ids = processes.map(|i: int, process: (u32, u32)| process.0);
    assert forall|reached: u32| #[trigger] path.to_set().contains(reached) implies listed(
        processes,
    ).contains(reached) by {
        assert(path.contains(reached));
        let k = choose|k: int| 0 <= k < path.len() && path[k] == reached;
        assert(ancestor(processes, pid, k as nat) == Some(reached));
        assert(!stops_at(processes, root, pid, k as nat));
        lemma_listed(processes, reached);
    }
    ids.lemma_cardinality_of_set();
    vstd::seq_lib::seq_to_set_is_finite(ids);
    vstd::set_lib::lemma_len_subset(path.to_set(), listed(processes));
    if path.no_duplicates() {
        path.unique_seq_to_set();
        assert(false);
    }
    let (i, j) = choose|i: int, j: int|
        0 <= i < path.len() && 0 <= j < path.len() && i != j && path[i] == path[j];
    let from = if i < j {
        i as nat
    } else {
        j as nat
    };
    let back = if i < j {
        j as nat
    } else {
        i as nat
    };
    assert(ancestor(processes, pid, from) is Some && ancestor(processes, pid, back) is Some);
    assert(path[from as int] == path[back as int]);
    assert forall|steps: nat| !#[trigger] stops_at(processes, root, pid, steps) by {
        let same = lemma_circle(processes, pid, from, back, steps);
        assert(ancestor(processes, pid, same) is Some);
        assert(!stops_at(processes, root, pid, same));
    }
}

fn stops(root: u32, pid: u32, processes: &[(u32, u32)]) -> (stopped: bool)
    ensures
        stopped == walk_stops(processes@, root, pid),
{
    let mut current: u32 = pid;
    let mut steps: usize = 0;
    loop
        invariant
            steps <= processes@.len(),
            ancestor(processes@, pid, steps as nat) == Some(current),
            forall|below: nat|
                below < steps ==> {
                    &&& (#[trigger] ancestor(processes@, pid, below)) is Some
                    &&& !stops_at(processes@, root, pid, below)
                },
        decreases processes@.len() - steps,
    {
        if current == root {
            assert(stops_at(processes@, root, pid, steps as nat));
            return true;
        }
        match parent_of(processes, current) {
            Some(next) => {
                if steps == processes.len() {
                    proof {
                        lemma_too_long(processes@, root, pid);
                    }
                    return false;
                }
                assert(ancestor(processes@, pid, (steps + 1) as nat) == Some(next));
                current = next;
                steps += 1;
            },
            None => {
                assert(stops_at(processes@, root, pid, steps as nat));
                return true;
            },
        }
    }
}

/// How many of the first `n` processes have `root` above them.
pub open spec fn descendants(processes: Seq<(u32, u32)>, root: u32, n: nat) -> nat
    decreases n,
{
    if n == 0 {
        0
    } else {
        descendants(processes, root, (n - 1) as nat) + if is_above(
            processes,
            root,
            processes[n - 1].1,
        ) {
            1nat
        } else {
            0
        }
    }
}

/// How many processes descend from `root`.
pub fn count_descendants(root: u32, processes: &[(u32, u32)]) -> (count: usize)
    requires
        forall|i: int|
            0 <= i < processes@.len() ==> walk_stops(processes@, root, (#[trigger] processes@[i]).1),
    ensures
        count == descendants(processes@, root, processes@.len()),
{
    let mut count: usize = 0;
    let mut i: usize = 0;
    while i < processes.len()
        invariant
            i <= processes@.len(),
            count <= i,
            count == descendants(processes@, root, i as nat),
            forall|j: int|
                0 <= j < processes@.len() ==> walk_stops(
                    processes@,
                    root,
                    (#[trigger] processes@[j]).1,
                ),
        decreases processes@.len() - i,
    {
        let (_, parent) = processes[i];
        assert(processes@[i as int].1 == parent);
        if walk_up(root, parent, processes) {
            count += 1;
        }
        i += 1;
    }
    count
}

/// Whether `pid` is listed with a parent that is not.
pub open spec fn is_root(processes: Seq<(u32, u32)>, pid: u32) -> bool {
    exists|i: int|
        0 <= i < processes.len() && (#[trigger] processes[i]).0 == pid && first_parent(
            processes,
            processes[i].1,
        ) is None
}

/// Whether no walk up to a root goes round in a circle. The system may hand an id
/// out again while an old child still names it, so a list need not be a tree.
pub open spec fn settled(processes: Seq<(u32, u32)>) -> bool {
    forall|root: u32, i: int|
        is_root(processes, root) && 0 <= i < processes.len() ==> #[trigger] walk_stops(
            processes,
            root,
            (#[trigger] processes[i]).1,
        )
}

/// Whether `a` is a better root than `b`: with more descendants, or as many and a
/// larger id.
pub open spec fn outranks(processes: Seq<(u32, u32)>, a: u32, b: u32) -> bool {
    let (m, n) = (
        descendants(processes, a, processes.len()),
        descendants(processes, b, processes.len()),
    );
    m > n || (m == n && a >= b)
}

/// Whether `root` is a root that outranks every root, or none where there is none.
pub open spec fn is_best_root(processes: Seq<(u32, u32)>, root: Option<u32>) -> bool {
    match root {
        Some(best) => is_root(processes, best) && forall|other: u32| #[trigger]
            is_root(processes, other) ==> outranks(processes, best, other),
        None => forall|other: u32| !is_root(processes, other),
    }
}

pub fn is_settled(processes: &[(u32, u32)]) -> (yes: bool)
    ensures
        yes == settled(processes@),
{
    let mut i: usize = 0;
    while i < processes.len()
        invariant
            i <= processes@.len(),
            forall|k: int, j: int|
                0 <= k < i && 0 <= j < processes@.len() && first_parent(
                    processes@,
                    processes@[k].1,
                ) is None ==> walk_stops(
                    processes@,
                    (#[trigger] processes@[k]).0,
                    (#[trigger] processes@[j]).1,
                ),
        decreases processes@.len() - i,
    {
        let (root, parent) = processes[i];
        assert(processes@[i as int] == (root, parent));
        if parent_of(processes, parent).is_none() {
            assert(is_root(processes@, root));
            let mut j: usize = 0;
            while j < processes.len()
                invariant
                    i < processes@.len(),
                    j <= processes@.len(),
                    processes@[i as int] == (root, parent),
                    is_root(processes@, root),
                    forall|l: int|
                        0 <= l < j ==> walk_stops(processes@, root, (#[trigger] processes@[l]).1),
                decreases processes@.len() - j,
            {
                let (_, above) = processes[j];
                assert(processes@[j as int].1 == above);
                if !stops(root, above, processes) {
                    return false;
                }
                j += 1;
            }
        }
        i += 1;
    }
    true
}

/// Whether no id is listed twice.
pub open spec fn distinct(processes: Seq<(u32, u32)>) -> bool {
    forall|i: int, j: int|
        0 <= i < j < processes.len() ==> (#[trigger] processes[i]).0 != (#[trigger] processes[j]).0
}

/// Whether the walk up from `pid` leaves the listed processes after `steps` steps.
pub open spec fn leaves_at(processes: Seq<(u32, u32)>, pid: u32, steps: nat) -> bool {
    ancestor(processes, pid, steps) matches Some(reached) && first_parent(processes, reached)
        is None
}

/// Whether no walk up goes round in a circle.
pub open spec fn acyclic(processes: Seq<(u32, u32)>) -> bool {
    forall|i: int|
        0 <= i < processes.len() ==> exists|steps: nat| #[trigger]
            leaves_at(processes, (#[trigger] processes[i]).0, steps)
}

/// Whether the process at `i` is listed with a parent that is not.
pub open spec fn root_at(processes: Seq<(u32, u32)>, i: int) -> bool {
    first_parent(processes, processes[i].1) is None
}

/// How many processes the trees of the roots among the first `n` processes have, the
/// roots included.
pub open spec fn tree_sizes(processes: Seq<(u32, u32)>, n: nat) -> nat
    decreases n,
{
    if n == 0 {
        0
    } else {
        tree_sizes(processes, (n - 1) as nat) + if root_at(processes, n - 1) {
            1 + descendants(processes, processes[n - 1].0, processes.len())
        } else {
            0
        }
    }
}

proof fn lemma_first_parent_at(processes: Seq<(u32, u32)>, i: int)
    requires
        distinct(processes),
        0 <= i < processes.len(),
    ensures
        first_parent(processes, processes[i].0) == Some(processes[i].1),
    decreases processes.len(),
{
    if i > 0 {
        let rest = processes.drop_first();
        assert(processes[0].0 != processes[i].0);
        assert forall|j: int, k: int| 0 <= j < k < rest.len() implies (#[trigger] rest[j]).0 != (
        #[trigger] rest[k]).0 by {
            assert(rest[j] == processes[j + 1] && rest[k] == processes[k + 1]);
        }
        assert(rest[i - 1] == processes[i]);
        lemma_first_parent_at(rest, i - 1);
    }
}

proof fn lemma_place_of(processes: Seq<(u32, u32)>, pid: u32) -> (i: int)
    requires
        first_parent(processes, pid) is Some,
    ensures
        0 <= i < processes.len(),
        processes[i] == (pid, first_parent(processes, pid)->0),
    decreases processes.len(),
{
    if processes.first().0 == pid {
        0
    } else {
        let i = lemma_place_of(processes.drop_first(), pid);
        assert(processes.drop_first()[i] == processes[i + 1]);
        i + 1
    }
}

/// The walk up from a process goes on as the walk up from its parent.
proof fn lemma_from_parent(processes: Seq<(u32, u32)>, pid: u32, parent: u32, steps: nat)
    requires
        first_parent(processes, pid) == Some(parent),
    ensures
        ancestor(processes, pid, (steps + 1) as nat) == ancestor(processes, parent, steps),
    decreases steps,
{
    if steps == 0 {
        assert(ancestor(processes, pid, 0) == Some(pid));
    } else {
        lemma_from_parent(processes, pid, parent, (steps - 1) as nat);
    }
}

proof fn lemma_above_split(processes: Seq<(u32, u32)>, root: u32, pid: u32, parent: u32)
    requires
        first_parent(processes, pid) == Some(parent),
    ensures
        is_above(processes, root, pid) == (root == pid || is_above(processes, root, parent)),
{
    if is_above(processes, root, pid) {
        let steps = choose|steps: nat| #[trigger] ancestor(processes, pid, steps) == Some(root);
        if steps > 0 {
            lemma_from_parent(processes, pid, parent, (steps - 1) as nat);
        }
    }
    if is_above(processes, root, parent) {
        let steps = choose|steps: nat| #[trigger] ancestor(processes, parent, steps) == Some(root);
        lemma_from_parent(processes, pid, parent, steps);
        assert(ancestor(processes, pid, (steps + 1) as nat) == Some(root));
    }
    assert(ancestor(processes, pid, 0) == Some(pid));
}

/// Where the root above a process stands. There is no other.
proof fn lemma_one_root(processes: Seq<(u32, u32)>, j: int) -> (r: int)
    requires
        distinct(processes),
        acyclic(processes),
        0 <= j < processes.len(),
    ensures
        0 <= r < processes.len(),
        root_at(processes, r),
        is_above(processes, processes[r].0, processes[j].0),
        forall|i: int|
            0 <= i < processes.len() && root_at(processes, i) && is_above(
                processes,
                (#[trigger] processes[i]).0,
                processes[j].0,
            ) ==> i == r,
{
    let pid = processes[j].0;
    lemma_first_parent_at(processes, j);
    let end = choose|steps: nat| #[trigger] leaves_at(processes, pid, steps);
    assert(leaves_at(processes, pid, end));
    assert(ancestor(processes, pid, 0) == Some(pid));
    let below = (end - 1) as nat;
    let root = ancestor(processes, pid, below)->0;
    let r = lemma_place_of(processes, root);
    assert(ancestor(processes, pid, below) == Some(root));
    assert forall|i: int|
        0 <= i < processes.len() && root_at(processes, i) && is_above(
            processes,
            (#[trigger] processes[i]).0,
            pid,
        ) implies i == r by {
        let other = processes[i].0;
        let steps = choose|steps: nat| #[trigger] ancestor(processes, pid, steps) == Some(other);
        lemma_first_parent_at(processes, i);
        let above = (steps + 1) as nat;
        assert(ancestor(processes, pid, above) == Some(processes[i].1));
        if above < end {
            lemma_top(processes, pid, above, end);
        } else if end < above {
            lemma_top(processes, pid, end, above);
        }
        assert(other == root);
        if i < r {
            assert(processes[i].0 != processes[r].0);
        } else if r < i {
            assert(processes[r].0 != processes[i].0);
        }
    }
    r
}

/// One if the process at `i` is a root and is the one at `j` or stands above it.
spec fn cell(processes: Seq<(u32, u32)>, i: int, j: int) -> nat {
    if root_at(processes, i) && is_above(processes, processes[i].0, processes[j].0) {
        1
    } else {
        0
    }
}

/// How many of the first `n` processes the root at `i` holds.
spec fn row(processes: Seq<(u32, u32)>, i: int, n: nat) -> nat
    decreases n,
{
    if n == 0 {
        0
    } else {
        row(processes, i, (n - 1) as nat) + cell(processes, i, n - 1)
    }
}

/// How many of the first `m` processes are roots that hold the process at `j`.
spec fn column(processes: Seq<(u32, u32)>, j: int, m: nat) -> nat
    decreases m,
{
    if m == 0 {
        0
    } else {
        column(processes, j, (m - 1) as nat) + cell(processes, m - 1, j)
    }
}

spec fn block(processes: Seq<(u32, u32)>, m: nat, n: nat) -> nat
    decreases m,
{
    if m == 0 {
        0
    } else {
        block(processes, (m - 1) as nat, n) + row(processes, m - 1, n)
    }
}

proof fn lemma_block_grows(processes: Seq<(u32, u32)>, m: nat, n: nat)
    ensures
        block(processes, m, n + 1) == block(processes, m, n) + column(processes, n as int, m),
    decreases m,
{
    if m > 0 {
        lemma_block_grows(processes, (m - 1) as nat, n);
    }
}

proof fn lemma_row(processes: Seq<(u32, u32)>, i: int, n: nat)
    requires
        distinct(processes),
        0 <= i < processes.len(),
        n <= processes.len(),
    ensures
        row(processes, i, n) == if root_at(processes, i) {
            descendants(processes, processes[i].0, n) + if i < n {
                1nat
            } else {
                0
            }
        } else {
            0
        },
    decreases n,
{
    if n > 0 {
        let j = n - 1;
        let (root, parent) = (processes[i].0, processes[j].1);
        lemma_row(processes, i, j as nat);
        lemma_first_parent_at(processes, i);
        lemma_first_parent_at(processes, j);
        lemma_above_split(processes, root, processes[j].0, parent);
        if i < j {
            assert(processes[i].0 != processes[j].0);
        } else if j < i {
            assert(processes[j].0 != processes[i].0);
        }
        if root_at(processes, i) && j == i {
            assert forall|steps: nat| #[trigger] ancestor(processes, parent, steps) != Some(
                root,
            ) by {
                if steps > 0 {
                    assert(ancestor(processes, parent, 0) == Some(parent));
                    lemma_top(processes, parent, 0, steps);
                }
            }
        }
    }
}

proof fn lemma_column(processes: Seq<(u32, u32)>, j: int, r: int, m: nat)
    requires
        0 <= r < processes.len(),
        m <= processes.len(),
        cell(processes, r, j) == 1,
        forall|i: int|
            0 <= i < processes.len() && root_at(processes, i) && is_above(
                processes,
                (#[trigger] processes[i]).0,
                processes[j].0,
            ) ==> i == r,
    ensures
        column(processes, j, m) == if r < m {
            1nat
        } else {
            0
        },
    decreases m,
{
    if m > 0 {
        lemma_column(processes, j, r, (m - 1) as nat);
        assert(processes[m - 1] == processes[m - 1]);
    }
}

proof fn lemma_blocks(processes: Seq<(u32, u32)>, n: nat)
    requires
        distinct(processes),
        acyclic(processes),
        n <= processes.len(),
    ensures
        block(processes, processes.len(), n) == n,
    decreases n,
{
    if n > 0 {
        let j = n - 1;
        lemma_blocks(processes, j as nat);
        lemma_block_grows(processes, processes.len(), j as nat);
        let r = lemma_one_root(processes, j);
        lemma_column(processes, j, r, processes.len());
    } else {
        lemma_empty_block(processes, processes.len());
    }
}

proof fn lemma_empty_block(processes: Seq<(u32, u32)>, m: nat)
    ensures
        block(processes, m, 0) == 0,
    decreases m,
{
    if m > 0 {
        lemma_empty_block(processes, (m - 1) as nat);
    }
}

proof fn lemma_tree_sizes(processes: Seq<(u32, u32)>, m: nat)
    requires
        distinct(processes),
        m <= processes.len(),
    ensures
        tree_sizes(processes, m) == block(processes, m, processes.len()),
    decreases m,
{
    if m > 0 {
        lemma_tree_sizes(processes, (m - 1) as nat);
        lemma_row(processes, m - 1, processes.len());
    }
}

/// Where no id is listed twice and no walk up goes round in a circle, the trees of all
/// roots together make up all processes, each of them once, and every walk up stops.
pub proof fn law_trees_make_up_all(processes: Seq<(u32, u32)>)
    requires
        distinct(processes),
        acyclic(processes),
    ensures
        tree_sizes(processes, processes.len()) == processes.len(),
        settled(processes),
        forall|root: u32, i: int|
            0 <= i < processes.len() ==> #[trigger] walk_stops(
                processes,
                root,
                (#[trigger] processes[i]).1,
            ),
{
    lemma_tree_sizes(processes, processes.len());
    lemma_blocks(processes, processes.len());
    assert forall|root: u32, i: int| 0 <= i < processes.len() implies #[trigger] walk_stops(
        processes,
        root,
        (#[trigger] processes[i]).1,
    ) by {
        let (pid, parent) = processes[i];
        lemma_first_parent_at(processes, i);
        let end = choose|steps: nat| #[trigger] leaves_at(processes, pid, steps);
        assert(leaves_at(processes, pid, end));
        assert(ancestor(processes, pid, 0) == Some(pid));
        lemma_from_parent(processes, pid, parent, (end - 1) as nat);
        assert(stops_at(processes, root, parent, (end - 1) as nat));
    }
}

/// How many processes of a list have their parent among `above`.
spec fn children_of(list: Seq<(u32, u32)>, above: Set<u32>) -> nat
    decreases list.len(),
{
    if list.len() == 0 {
        0
    } else {
        children_of(list.drop_last(), above) + if above.contains(list.last().1) {
            1nat
        } else {
            0
        }
    }
}

proof fn lemma_children_without(list: Seq<(u32, u32)>, above: Set<u32>, i: int)
    requires
        0 <= i < list.len(),
    ensures
        children_of(list, above) == children_of(list.remove(i), above) + if above.contains(
            list[i].1,
        ) {
            1nat
        } else {
            0
        },
    decreases list.len(),
{
    if i == list.len() - 1 {
        assert(list.remove(i) == list.drop_last());
    } else {
        lemma_children_without(list.drop_last(), above, i);
        assert(list.remove(i).drop_last() == list.drop_last().remove(i));
    }
}

proof fn lemma_at_both(a: Seq<(u32, u32)>, b: Seq<(u32, u32)>, i: int)
    requires
        a.to_multiset() == b.to_multiset(),
        0 <= i < a.len(),
    ensures
        0 <= b.index_of(a[i]) < b.len(),
        b[b.index_of(a[i])] == a[i],
{
    a.to_multiset_ensures();
    b.to_multiset_ensures();
    assert(a.contains(a[i]));
    assert(a.to_multiset().count(a[i]) > 0);
    assert(b.contains(a[i]));
}

proof fn lemma_children_in_any_order(a: Seq<(u32, u32)>, b: Seq<(u32, u32)>, above: Set<u32>)
    requires
        a.to_multiset() == b.to_multiset(),
    ensures
        children_of(a, above) == children_of(b, above),
    decreases a.len(),
{
    a.to_multiset_ensures();
    b.to_multiset_ensures();
    if a.len() > 0 {
        let last = a.last();
        lemma_at_both(a, b, a.len() - 1);
        let i = b.index_of(last);
        assert(a.remove(a.len() - 1) == a.drop_last());
        lemma_children_without(b, above, i);
        lemma_children_in_any_order(a.drop_last(), b.remove(i), above);
    }
}

proof fn lemma_descendants(processes: Seq<(u32, u32)>, root: u32, above: Set<u32>, n: nat)
    requires
        forall|pid: u32| #[trigger] above.contains(pid) == is_above(processes, root, pid),
        n <= processes.len(),
    ensures
        descendants(processes, root, n) == children_of(processes.take(n as int), above),
    decreases n,
{
    if n > 0 {
        lemma_descendants(processes, root, above, (n - 1) as nat);
        assert(processes.take(n as int).drop_last() == processes.take(n - 1));
        assert(above.contains(processes[n - 1].1) == is_above(
            processes,
            root,
            processes[n - 1].1,
        ));
    }
}

proof fn lemma_distinct_in_any_order(a: Seq<(u32, u32)>, b: Seq<(u32, u32)>)
    requires
        distinct(a),
        a.to_multiset() == b.to_multiset(),
    ensures
        distinct(b),
{
    a.to_multiset_ensures();
    b.to_multiset_ensures();
    assert(a.no_duplicates());
    a.lemma_multiset_has_no_duplicates();
    b.lemma_multiset_has_no_duplicates_conv();
    assert forall|i: int, j: int| 0 <= i < j < b.len() implies (#[trigger] b[i]).0 != (#[trigger]
    b[j]).0 by {
        lemma_at_both(b, a, i);
        lemma_at_both(b, a, j);
        assert(b[i] != b[j]);
    }
}

proof fn lemma_parent_in_any_order(a: Seq<(u32, u32)>, b: Seq<(u32, u32)>, pid: u32)
    requires
        distinct(a),
        distinct(b),
        a.to_multiset() == b.to_multiset(),
    ensures
        first_parent(a, pid) == first_parent(b, pid),
{
    if first_parent(a, pid) is Some {
        let i = lemma_place_of(a, pid);
        lemma_at_both(a, b, i);
        lemma_first_parent_at(b, b.index_of(a[i]));
    } else if first_parent(b, pid) is Some {
        let i = lemma_place_of(b, pid);
        lemma_at_both(b, a, i);
        lemma_first_parent_at(a, a.index_of(b[i]));
    }
}

proof fn lemma_ancestor_in_any_order(
    a: Seq<(u32, u32)>,
    b: Seq<(u32, u32)>,
    pid: u32,
    steps: nat,
)
    requires
        forall|pid: u32| #[trigger] first_parent(a, pid) == first_parent(b, pid),
    ensures
        ancestor(a, pid, steps) == ancestor(b, pid, steps),
    decreases steps,
{
    if steps > 0 {
        lemma_ancestor_in_any_order(a, b, pid, (steps - 1) as nat);
    }
}

/// What one list of processes has, the same processes in another order have too.
proof fn lemma_in_any_order(a: Seq<(u32, u32)>, b: Seq<(u32, u32)>)
    requires
        distinct(a),
        distinct(b),
        a.to_multiset() == b.to_multiset(),
    ensures
        settled(a) ==> settled(b),
        forall|pid: u32| #[trigger] is_root(a, pid) ==> is_root(b, pid),
        forall|root: u32|
            #![trigger descendants(a, root, a.len())]
            #![trigger descendants(b, root, b.len())]
            descendants(a, root, a.len()) == descendants(b, root, b.len()),
{
    assert forall|pid: u32| #[trigger] first_parent(a, pid) == first_parent(b, pid) by {
        lemma_parent_in_any_order(a, b, pid);
    }
    assert forall|pid: u32, steps: nat| #[trigger]
        ancestor(a, pid, steps) == ancestor(b, pid, steps) by {
        lemma_ancestor_in_any_order(a, b, pid, steps);
    }
    assert forall|pid: u32, steps: nat| #[trigger]
        ancestor(b, pid, steps) == ancestor(a, pid, steps) by {
        lemma_ancestor_in_any_order(a, b, pid, steps);
    }
    assert forall|pid: u32| #[trigger] is_root(a, pid) implies is_root(b, pid) by {
        let i = choose|i: int|
            0 <= i < a.len() && (#[trigger] a[i]).0 == pid && first_parent(a, a[i].1) is None;
        lemma_at_both(a, b, i);
    }
    assert forall|pid: u32| #[trigger] is_root(b, pid) implies is_root(a, pid) by {
        let i = choose|i: int|
            0 <= i < b.len() && (#[trigger] b[i]).0 == pid && first_parent(b, b[i].1) is None;
        assert(first_parent(a, b[i].1) is None);
        lemma_at_both(b, a, i);
    }
    if settled(a) {
        assert forall|root: u32, i: int|
            is_root(b, root) && 0 <= i < b.len() implies #[trigger] walk_stops(
            b,
            root,
            (#[trigger] b[i]).1,
        ) by {
            lemma_at_both(b, a, i);
            let j = a.index_of(b[i]);
            assert(is_root(a, root));
            assert(walk_stops(a, root, a[j].1));
            let steps = choose|steps: nat| #[trigger] stops_at(a, root, a[j].1, steps);
            assert(first_parent(a, ancestor(a, a[j].1, steps)->0) == first_parent(
                b,
                ancestor(b, b[i].1, steps)->0,
            ));
            assert(stops_at(b, root, b[i].1, steps));
        }
    }
    assert forall|root: u32|
        #![trigger descendants(a, root, a.len())]
        #![trigger descendants(b, root, b.len())]
        descendants(a, root, a.len()) == descendants(b, root, b.len()) by {
        let above = Set::new(|pid: u32| is_above(a, root, pid));
        assert forall|pid: u32| #[trigger] above.contains(pid) == is_above(b, root, pid) by {
            if is_above(a, root, pid) {
                let steps = choose|steps: nat| #[trigger] ancestor(a, pid, steps) == Some(root);
                assert(ancestor(b, pid, steps) == Some(root));
            }
            if is_above(b, root, pid) {
                let steps = choose|steps: nat| #[trigger] ancestor(b, pid, steps) == Some(root);
                assert(ancestor(a, pid, steps) == Some(root));
            }
        }
        lemma_descendants(a, root, above, a.len());
        lemma_descendants(b, root, above, b.len());
        assert(a.take(a.len() as int) == a);
        assert(b.take(b.len() as int) == b);
        lemma_children_in_any_order(a, b, above);
    }
}

/// Where no id is listed twice, the order of the list does
/// not matter: the same processes in another order have the same roots, of the same
/// ranks, and the same best root.
pub proof fn law_order_does_not_matter(a: Seq<(u32, u32)>, b: Seq<(u32, u32)>)
    requires
        distinct(a),
        a.to_multiset() == b.to_multiset(),
    ensures
        settled(a) == settled(b),
        forall|pid: u32| #[trigger] is_root(a, pid) == is_root(b, pid),
        forall|x: u32, y: u32| #[trigger] outranks(a, x, y) == outranks(b, x, y),
        forall|x: Option<u32>, y: Option<u32>| #[trigger]
            is_best_root(a, x) && #[trigger] is_best_root(b, y) ==> x == y,
{
    lemma_distinct_in_any_order(a, b);
    lemma_in_any_order(a, b);
    lemma_in_any_order(b, a);
    assert(forall|pid: u32| #[trigger] is_root(b, pid) ==> is_root(a, pid));
}

/// The root of the largest tree, the one with the largest id among equals; none
/// where there is no root.
pub fn select_discord_root(processes: &[(u32, u32)]) -> (root: Option<u32>)
    requires
        settled(processes@),
    ensures
        is_best_root(processes@, root),
{
    let mut best: Option<(u32, usize)> = None;
    let mut i: usize = 0;
    while i < processes.len()
        invariant
            settled(processes@),
            i <= processes@.len(),
            match best {
                Some((root, count)) => {
                    &&& is_root(processes@, root)
                    &&& count == descendants(processes@, root, processes@.len())
                    &&& forall|k: int|
                        0 <= k < i && first_parent(processes@, processes@[k].1) is None
                            ==> outranks(processes@, root, (#[trigger] processes@[k]).0)
                },
                None => forall|k: int|
                    0 <= k < i ==> first_parent(processes@, (#[trigger] processes@[k]).1) is Some,
            },
        decreases processes@.len() - i,
    {
        let (pid, parent) = processes[i];
        assert(processes@[i as int] == (pid, parent));
        if parent_of(processes, parent).is_none() {
            assert(is_root(processes@, pid));
            let count: usize = count_descendants(pid, processes);
            best = match best {
                Some((root, most)) => {
                    if count > most || (count == most && pid >= root) {
                        Some((pid, count))
                    } else {
                        Some((root, most))
                    }
                },
                None => Some((pid, count)),
            };
        }
        i += 1;
    }
    match best {
        Some((root, _)) => Some(root),
        None => None,
    }
}

/// `char::from_u32`: the character with this code point, none where there is none.
pub assume_specification[ char::from_u32 ](code: u32) -> (c: Option<char>)
    ensures
        c == if code > 0x10_ffff || 0xd800 <= code <= 0xdfff {
            None
        } else {
            Some(code as char)
        },
;

/// The character that stands for a unit of a wide string: half of a pair stands as
/// a question mark, and the letters A to Z in lower case.
pub open spec fn narrow(unit: u16) -> char {
    if 0xd800 <= unit <= 0xdfff {
        '?'
    } else if 65 <= unit <= 90 {
        (unit + 32) as char
    } else {
        unit as char
    }
}

/// How many units of a wide string stand before the first zero.
pub open spec fn wide_len(name: Seq<u16>) -> nat
    decreases name.len(),
{
    if name.len() == 0 || name.first() == 0 {
        0
    } else {
        1 + wide_len(name.drop_first())
    }
}

fn narrow_unit(unit: u16) -> (c: char)
    ensures
        c == narrow(unit),
{
    match char::from_u32(unit as u32) {
        Some(c) => {
            if 'A' <= c && c <= 'Z' {
                (c as u8 + 32) as char
            } else {
                c
            }
        },
        None => '?',
    }
}

/// Reads the name of a program from a wide string that a zero ends, in lower case.
pub fn image_name(name: &[u16]) -> (image: String)
    ensures
        image@ == image_of(name@),
{
    let mut image: String = String::new();
    let mut i: usize = 0;
    assert(name@.skip(0) == name@);
    assert(image@ == Seq::new(0, |k: int| narrow(name@[k])));
    while i < name.len() && name[i] != 0
        invariant
            i <= name@.len(),
            wide_len(name@) == i + wide_len(name@.skip(i as int)),
            image@ == Seq::new(i as nat, |k: int| narrow(name@[k])),
        decreases name@.len() - i,
    {
        let ghost before = image@;
        image.push(narrow_unit(name[i]));
        i += 1;
        assert(name@.skip(i - 1).drop_first() == name@.skip(i as int));
        assert(image@ == Seq::new(i as nat, |k: int| narrow(name@[k])));
    }
    image
}

/// Whether a program is one of the Discord clients.
pub fn is_discord_image(name: &str) -> (yes: bool)
    ensures
        yes == names_discord(name@),
{
    same(name, "discord.exe") || same(name, "discordptb.exe") || same(name, "discordcanary.exe")
}

/// A process as the system lists it: its id, that of its parent, and the name of its
/// program as a wide string.
pub struct ProcessEntry {
    pub pid: u32,
    pub parent: u32,
    pub image: Vec<u16>,
}

/// The name of a program, in lower case.
pub open spec fn image_of(name: Seq<u16>) -> Seq<char> {
    Seq::new(wide_len(name), |i: int| narrow(name[i]))
}

/// Whether a name is that of one of the Discord clients.
pub open spec fn names_discord(name: Seq<char>) -> bool {
    name == "discord.exe"@ || name == "discordptb.exe"@ || name == "discordcanary.exe"@
}

/// The ids of the Discord processes among those listed, each with that of its
/// parent.
pub open spec fn discord_entries(entries: Seq<ProcessEntry>) -> Seq<(u32, u32)>
    decreases entries.len(),
{
    if entries.len() == 0 {
        seq![]
    } else {
        let before = discord_entries(entries.drop_last());
        let entry = entries.last();
        if names_discord(image_of(entry.image@)) {
            before.push((entry.pid, entry.parent))
        } else {
            before
        }
    }
}

pub fn discord_processes(entries: &Vec<ProcessEntry>) -> (found: Vec<(u32, u32)>)
    ensures
        found@ == discord_entries(entries@),
{
    let mut found: Vec<(u32, u32)> = Vec::new();
    let mut i: usize = 0;
    while i < entries.len()
        invariant
            i <= entries@.len(),
            found@ == discord_entries(entries@.take(i as int)),
        decreases entries@.len() - i,
    {
        let entry = &entries[i];
        assert(entries@.take(i + 1).drop_last() == entries@.take(i as int));
        assert(entries@.take(i + 1).last() == *entry);
        let name: String = image_name(entry.image.as_slice());
        if is_discord_image(name.as_str()) {
            found.push((entry.pid, entry.parent));
        }
        i += 1;
    }
    assert(entries@.take(entries@.len() as int) == entries@);
    found
}

/// The root of the Discord processes among those listed. To leave it out leaves out
/// the whole tree. None where Discord does not run.
pub fn find_discord_root_pid(entries: &Vec<ProcessEntry>) -> (root: Option<u32>)
    requires
        settled(discord_entries(entries@)),
    ensures
        is_best_root(discord_entries(entries@), root),
{
    let found = discord_processes(entries);
    select_discord_root(found.as_slice())
}

/// What the capture of sound does next.
pub enum AudioStep {
    /// Look through the processes for the one to leave out.
    Scan,
    /// Open a loopback client that leaves this process out, if any.
    Open(Option<u32>),
    /// Look through the processes once more while the client runs.
    Rescan,
    /// Read from the device.
    Read,
    /// Wait for the device.
    Wait,
    /// Stop the client, for good or to open another.
    Close { rebuild: bool },
    /// Leave the capture.
    Finish(Result<(), String>),
}

/// The word that four bytes hold, the lowest first.
pub open spec fn word(bytes: Seq<u8>, at: int) -> u32 {
    (bytes[at] + bytes[at + 1] * 0x100 + bytes[at + 2] * 0x1_0000 + bytes[at + 3]
        * 0x100_0000) as u32
}

/// The samples that bytes hold from `at` on, each as the word of its bits.
pub open spec fn words(bytes: Seq<u8>, at: int, count: nat) -> Seq<u32> {
    Seq::new(count, |i: int| word(bytes, at + i * 4))
}

/// The whole frames that bytes hold.
pub open spec fn frames_in(bytes: Seq<u8>) -> Seq<Seq<u32>> {
    Seq::new(
        (bytes.len() / FRAME_BYTES as nat) as nat,
        |k: int| words(bytes, k * FRAME_BYTES, (FRAME_SAMPLES * CHANNELS) as nat),
    )
}

/// The frames of a list of vectors.
pub open spec fn frame_list(list: Seq<Vec<u32>>) -> Seq<Seq<u32>> {
    Seq::new(list.len(), |i: int| list[i]@)
}

/// The messages on what is left out, where that changes.
pub open spec fn target_messages(found: Result<Option<u32>, String>, before: Option<u32>) -> Seq<
    Seq<char>,
> {
    let failed = match found {
        Ok(_) => seq![],
        Err(error) => seq!["Discord detection failed: "@ + error@],
    };
    let target = target_of(found);
    let changed = if target == before {
        seq![]
    } else {
        match target {
            Some(pid) => seq![
                "Discord audio excluded from the stream (pid "@ + digits(pid as nat) + ")"@,
            ],
            None => seq!["Discord not running: sharing full system audio"@],
        }
    };
    failed + changed
}

/// What is left out: the process that was found, nothing where looking failed.
pub open spec fn target_of(found: Result<Option<u32>, String>) -> Option<u32> {
    match found {
        Ok(target) => target,
        Err(_) => None,
    }
}

/// What is done to get a loopback client.
#[derive(Clone, Copy, Debug, PartialEq, Eq, Structural)]
pub enum ClientStep {
    /// Open one that leaves this process out.
    Exclude(u32),
    /// Open one for all sound.
    All,
    /// Take the one that was opened, with a buffer of this length.
    Take(i64),
}

/// Where opening a loopback client can fail.
#[derive(Clone, Copy, Debug, PartialEq, Eq, Structural)]
pub enum OpenStage {
    /// There is no client to be had.
    Build,
    /// The client does not take the format.
    Init,
    /// The client does not start.
    Start,
}

/// The capture of what the machine plays.
pub struct AudioPump {
    target: Option<u32>,
    ready: bool,
    last_scan: u64,
    bytes: VecDeque<u8>,
}

impl AudioPump {
    /// The process that is left out, if any.
    pub closed spec fn target(&self) -> Option<u32> {
        self.target
    }

    /// Whether a client has run.
    pub closed spec fn ready(&self) -> bool {
        self.ready
    }

    /// When the processes were looked through while the client runs.
    pub closed spec fn last_scan(&self) -> u64 {
        self.last_scan
    }

    /// The bytes that were read and make no whole frame yet.
    pub closed spec fn bytes(&self) -> Seq<u8> {
        self.bytes@
    }

    pub fn new() -> (pump: Self)
        ensures
            pump.target() is None,
            !pump.ready(),
            pump.last_scan() == 0,
            pump.bytes().len() == 0,
    {
        Self { target: None, ready: false, last_scan: 0, bytes: VecDeque::new() }
    }

    /// Where a round begins: look what is to be left out, unless it is over.
    pub fn begin(stopped: bool) -> (step: AudioStep)
        ensures
            step == if stopped {
                AudioStep::Finish(Ok(()))
            } else {
                AudioStep::Scan
            },
    {
        if stopped {
            AudioStep::Finish(Ok(()))
        } else {
            AudioStep::Scan
        }
    }

    /// Takes the process to leave out. To fail to find one is not fatal: nothing is
    /// left out then. Also gives the messages on it.
    pub fn scanned(&mut self, found: Result<Option<u32>, String>) -> (next: (
        AudioStep,
        Vec<String>,
    ))
        ensures
            next.0 == AudioStep::Open(target_of(found)),
            lines(next.1@) == target_messages(found, old(self).target()),
            final(self).target() == target_of(found),
            final(self).ready() == old(self).ready(),
            final(self).last_scan() == old(self).last_scan(),
            final(self).bytes() == old(self).bytes(),
    {
        let mut messages: Vec<String> = Vec::new();
        let target = match &found {
            Ok(target) => *target,
            Err(error) => {
                messages.push(joined_text("Discord detection failed: ", error.as_str()));
                None
            },
        };
        let changed: bool = match (target, self.target) {
            (Some(now), Some(before)) => now != before,
            (None, None) => false,
            _ => true,
        };
        if changed {
            if let Some(pid) = target {
                let mut message: String = "Discord audio excluded from the stream (pid ".to_owned();
                push_number(&mut message, pid as u64);
                message.append(")");
                messages.push(message);
            } else {
                messages.push("Discord not running: sharing full system audio".to_owned());
            }
        }
        assert(lines(messages@) == target_messages(found, self.target));
        self.target = target;
        (AudioStep::Open(target), messages)
    }

    /// Which client to open first: one that leaves the process out, if there is one to
    /// leave out.
    pub fn client(target: Option<u32>) -> (step: ClientStep)
        ensures
            step == match target {
                Some(pid) => ClientStep::Exclude(pid),
                None => ClientStep::All,
            },
    {
        match target {
            Some(pid) => ClientStep::Exclude(pid),
            None => ClientStep::All,
        }
    }

    /// Takes what came of opening a client that leaves a process out. Where there is none
    /// to be had, one for all sound is opened instead: that is no error, and a message
    /// tells of it.
    pub fn exclusion(outcome: Result<(), String>) -> (next: (ClientStep, Option<String>))
        ensures
            match outcome {
                Ok(()) => next.0 == ClientStep::Take(PROCESS_LOOPBACK_PERIOD_HNS) && next.1 is None,
                Err(error) => next.0 == ClientStep::All && (next.1 matches Some(message) && message@
                    == "Discord exclusion unavailable ("@ + error@
                    + "); sharing full system audio"@),
            },
    {
        match outcome {
            Ok(()) => (ClientStep::Take(PROCESS_LOOPBACK_PERIOD_HNS), None),
            Err(error) => {
                let mut message: String = joined_text(
                    "Discord exclusion unavailable (",
                    error.as_str(),
                );
                message.append("); sharing full system audio");
                (ClientStep::All, Some(message))
            },
        }
    }

    /// No client could be opened: the capture ends. Where there was none to be had, the
    /// reason comes as a message.
    pub fn open_failed(stage: OpenStage, error: String) -> (end: (AudioStep, Option<String>))
        ensures
            end.0 matches AudioStep::Finish(Err(reason)) && reason@ == match stage {
                OpenStage::Build => "audio capture failed"@,
                OpenStage::Init => "loopback init failed: "@ + error@,
                OpenStage::Start => error@,
            },
            end.1 == if stage == OpenStage::Build {
                Some(error)
            } else {
                None
            },
    {
        match stage {
            OpenStage::Build => (
                AudioStep::Finish(Err("audio capture failed".to_owned())),
                Some(error),
            ),
            OpenStage::Init => (
                AudioStep::Finish(Err(joined_text("loopback init failed: ", error.as_str()))),
                None,
            ),
            OpenStage::Start => (AudioStep::Finish(Err(error)), None),
        }
    }

    /// The client runs. True the first time, when the capture counts as ready.
    pub fn opened(&mut self, now: u64) -> (first: bool)
        ensures
            first == !old(self).ready(),
            final(self).ready(),
            final(self).last_scan() == now,
            final(self).bytes().len() == 0,
            final(self).target() == old(self).target(),
    {
        let first: bool = !self.ready;
        self.ready = true;
        self.last_scan = now;
        self.bytes = VecDeque::new();
        first
    }

    /// What comes next while the client runs.
    pub fn turn(&mut self, stopped: bool, now: u64) -> (step: AudioStep)
        ensures
            final(self).target() == old(self).target(),
            final(self).ready() == old(self).ready(),
            final(self).bytes() == old(self).bytes(),
            if stopped {
                step == (AudioStep::Close { rebuild: false }) && final(self).last_scan() == old(
                    self,
                ).last_scan()
            } else if span(now, old(self).last_scan()) >= EXCLUSION_RESCAN_INTERVAL {
                step == AudioStep::Rescan && final(self).last_scan() == now
            } else {
                step == AudioStep::Read && final(self).last_scan() == old(self).last_scan()
            },
    {
        if stopped {
            AudioStep::Close { rebuild: false }
        } else if elapsed(now, self.last_scan) >= EXCLUSION_RESCAN_INTERVAL {
            self.last_scan = now;
            AudioStep::Rescan
        } else {
            AudioStep::Read
        }
    }

    /// Takes the process that would be left out now: another one calls for another
    /// client. To fail to find one changes nothing and gives a message.
    pub fn rescanned(&self, found: Result<Option<u32>, String>) -> (next: (
        AudioStep,
        Option<String>,
    ))
        ensures
            match found {
                Ok(current) => next.1 is None && next.0 == if current == self.target() {
                    AudioStep::Read
                } else {
                    AudioStep::Close { rebuild: true }
                },
                Err(error) => next.0 == AudioStep::Read && (next.1 matches Some(message)
                    && message@ == "Discord detection failed: "@ + error@),
            },
    {
        match found {
            Ok(current) => {
                let changed: bool = match (current, self.target) {
                    (Some(now), Some(before)) => now != before,
                    (None, None) => false,
                    _ => true,
                };
                if changed {
                    (AudioStep::Close { rebuild: true }, None)
                } else {
                    (AudioStep::Read, None)
                }
            },
            Err(error) => (
                AudioStep::Read,
                Some(joined_text("Discord detection failed: ", error.as_str())),
            ),
        }
    }

    /// The device could not be read: another client is needed.
    pub fn read_failed(error: &str) -> (next: (AudioStep, String))
        ensures
            next.0 == (AudioStep::Close { rebuild: true }),
            next.1@ == "audio capture read failed: "@ + error@,
    {
        (AudioStep::Close { rebuild: true }, joined_text("audio capture read failed: ", error))
    }

    /// The wait for the device is over. Where it failed, another client is needed.
    pub fn waited(&mut self, woken: bool, stopped: bool, now: u64) -> (step: AudioStep)
        ensures
            final(self).target() == old(self).target(),
            final(self).ready() == old(self).ready(),
            final(self).bytes() == old(self).bytes(),
            if !woken {
                step == (AudioStep::Close { rebuild: true }) && final(self).last_scan() == old(
                    self,
                ).last_scan()
            } else if stopped {
                step == (AudioStep::Close { rebuild: false }) && final(self).last_scan() == old(
                    self,
                ).last_scan()
            } else if span(now, old(self).last_scan()) >= EXCLUSION_RESCAN_INTERVAL {
                step == AudioStep::Rescan && final(self).last_scan() == now
            } else {
                step == AudioStep::Read && final(self).last_scan() == old(self).last_scan()
            },
    {
        if woken {
            self.turn(stopped, now)
        } else {
            AudioStep::Close { rebuild: true }
        }
    }

    /// The client was stopped: begin another round, or leave.
    pub fn closed(rebuild: bool, stopped: bool) -> (step: AudioStep)
        ensures
            step == if !rebuild || stopped {
                AudioStep::Finish(Ok(()))
            } else {
                AudioStep::Scan
            },
    {
        if rebuild {
            Self::begin(stopped)
        } else {
            AudioStep::Finish(Ok(()))
        }
    }
}

/// The four bytes of a word, the lowest first.
pub open spec fn word_bytes(w: u32) -> Seq<u8> {
    seq![
        (w % 0x100) as u8,
        (w / 0x100 % 0x100) as u8,
        (w / 0x1_0000 % 0x100) as u8,
        (w / 0x100_0000) as u8,
    ]
}

/// The bytes of words, one behind the other.
pub open spec fn all_bytes(list: Seq<u32>) -> Seq<u8> {
    Seq::new(list.len() * 4, |i: int| word_bytes(list[i / 4])[i % 4])
}

/// The bytes of a word are the bytes that it was read from.
pub proof fn law_words_keep_their_bytes(bytes: Seq<u8>, at: int)
    requires
        0 <= at,
        at + 4 <= bytes.len(),
    ensures
        word_bytes(word(bytes, at)) == bytes.subrange(at, at + 4),
{
    let (a, b, c, d) = (bytes[at], bytes[at + 1], bytes[at + 2], bytes[at + 3]);
    lemma_word_of_bytes(a, b, c, d);
    assert(word_bytes(word(bytes, at)) =~= bytes.subrange(at, at + 4));
}

proof fn lemma_word_of_bytes(a: u8, b: u8, c: u8, d: u8)
    ensures
        ({
            let w = (a + b * 0x100 + c * 0x1_0000 + d * 0x100_0000) as u32;
            &&& w == a + b * 0x100 + c * 0x1_0000 + d * 0x100_0000
            &&& w % 0x100 == a
            &&& w / 0x100 % 0x100 == b
            &&& w / 0x1_0000 % 0x100 == c
            &&& w / 0x100_0000 == d
        }),
{
    let w = a + b * 0x100 + c * 0x1_0000 + d * 0x100_0000;
    let high = c + d * 0x100;
    lemma_fundamental_div_mod_converse(w, 0x100, b + high * 0x100, a as int);
    lemma_fundamental_div_mod_converse(b + high * 0x100, 0x100, high, b as int);
    lemma_fundamental_div_mod_converse(w, 0x1_0000, high, a + b * 0x100);
    lemma_fundamental_div_mod_converse(high, 0x100, d as int, c as int);
    lemma_fundamental_div_mod_converse(w, 0x100_0000, d as int, a + b * 0x100 + c * 0x1_0000);
}

/// A word that is written as bytes is read back as it was.
pub proof fn law_bytes_keep_their_word(w: u32)
    ensures
        word(word_bytes(w), 0) == w,
{
}

/// The frames and the bytes that are left over hold all that was read, in order.
pub proof fn law_frames_keep_all_bytes(bytes: Seq<u8>)
    ensures
        ({
            let frames = frames_in(bytes);
            &&& bytes.len() - frames.len() * FRAME_BYTES < FRAME_BYTES
            &&& forall|k: int|
                0 <= k < frames.len() ==> all_bytes(#[trigger] frames[k]) == bytes.subrange(
                    k * FRAME_BYTES,
                    (k + 1) * FRAME_BYTES,
                )
        }),
{
    let frames = frames_in(bytes);
    assert forall|k: int| 0 <= k < frames.len() implies all_bytes(#[trigger] frames[k])
        == bytes.subrange(k * FRAME_BYTES, (k + 1) * FRAME_BYTES) by {
        let from = k * FRAME_BYTES;
        let part = bytes.subrange(from, from + FRAME_BYTES);
        assert forall|i: int| 0 <= i < FRAME_BYTES implies all_bytes(frames[k])[i] == part[i] by {
            law_words_keep_their_bytes(bytes, from + i / 4 * 4);
            assert(bytes.subrange(from + i / 4 * 4, from + i / 4 * 4 + 4)[i % 4] == part[i]);
        }
        assert(all_bytes(frames[k]) =~= part);
    }
}

fn pop_byte(bytes: &mut VecDeque<u8>) -> (byte: u8)
    requires
        old(bytes)@.len() > 0,
    ensures
        byte == old(bytes)@[0],
        final(bytes)@ == old(bytes)@.skip(1),
{
    match bytes.pop_front() {
        Some(byte) => byte,
        None => 0,
    }
}

fn pop_word(bytes: &mut VecDeque<u8>) -> (w: u32)
    requires
        old(bytes)@.len() >= 4,
    ensures
        w == word(old(bytes)@, 0),
        final(bytes)@ == old(bytes)@.skip(4),
{
    let a: u8 = pop_byte(bytes);
    let b: u8 = pop_byte(bytes);
    let c: u8 = pop_byte(bytes);
    let d: u8 = pop_byte(bytes);
    assert(bytes@ == old(bytes)@.skip(4));
    a as u32 + b as u32 * 0x100 + c as u32 * 0x1_0000 + d as u32 * 0x100_0000
}

fn pop_frame(bytes: &mut VecDeque<u8>) -> (frame: Vec<u32>)
    requires
        old(bytes)@.len() >= FRAME_BYTES,
    ensures
        frame@ == words(old(bytes)@, 0, (FRAME_SAMPLES * CHANNELS) as nat),
        final(bytes)@ == old(bytes)@.skip(FRAME_BYTES as int),
{
    let mut frame: Vec<u32> = Vec::new();
    let mut i: usize = 0;
    while i < FRAME_SAMPLES * CHANNELS
        invariant
            i <= FRAME_SAMPLES * CHANNELS,
            old(bytes)@.len() >= FRAME_BYTES,
            bytes@ == old(bytes)@.skip(i * 4),
            frame@ == words(old(bytes)@, 0, i as nat),
        decreases FRAME_SAMPLES * CHANNELS - i,
    {
        let w: u32 = pop_word(bytes);
        frame.push(w);
        assert(bytes@ == old(bytes)@.skip((i + 1) * 4));
        assert(word(old(bytes)@.skip(i * 4), 0) == word(old(bytes)@, i * 4));
        assert(frame@ == words(old(bytes)@, 0, (i + 1) as nat));
        i += 1;
    }
    frame
}

impl AudioPump {
    /// Takes bytes from the device and gives the frames that are whole by now.
    pub fn received(&mut self, data: &[u8]) -> (frames: Vec<Vec<u32>>)
        ensures
            frame_list(frames@) == frames_in(old(self).bytes() + data@),
            final(self).bytes() == (old(self).bytes() + data@).skip(
                frames@.len() * FRAME_BYTES,
            ),
            final(self).bytes().len() < FRAME_BYTES,
            final(self).target() == old(self).target(),
            final(self).ready() == old(self).ready(),
            final(self).last_scan() == old(self).last_scan(),
    {
        let ghost all = self.bytes@ + data@;
        let mut i: usize = 0;
        while i < data.len()
            invariant
                i <= data@.len(),
                self.bytes@ == old(self).bytes@ + data@.take(i as int),
                self.target == old(self).target,
                self.ready == old(self).ready,
                self.last_scan == old(self).last_scan,
            decreases data@.len() - i,
        {
            self.bytes.push_back(data[i]);
            i += 1;
            assert(self.bytes@ == old(self).bytes@ + data@.take(i as int));
        }
        assert(data@.take(data@.len() as int) == data@);
        assert(self.bytes@ == all.skip(0));
        let mut frames: Vec<Vec<u32>> = Vec::new();
        while self.bytes.len() >= FRAME_BYTES
            invariant
                frames@.len() * FRAME_BYTES <= all.len(),
                self.bytes@ == all.skip(frames@.len() * FRAME_BYTES),
                forall|k: int|
                    0 <= k < frames@.len() ==> (#[trigger] frames@[k])@ == words(
                        all,
                        k * FRAME_BYTES,
                        (FRAME_SAMPLES * CHANNELS) as nat,
                    ),
                self.target == old(self).target,
                self.ready == old(self).ready,
                self.last_scan == old(self).last_scan,
            decreases self.bytes@.len(),
        {
            let ghost before = self.bytes@;
            let ghost at = frames@.len() * FRAME_BYTES;
            let frame = pop_frame(&mut self.bytes);
            proof {
                assert(before.skip(FRAME_BYTES as int) == all.skip(at + FRAME_BYTES));
                assert(words(before, 0, (FRAME_SAMPLES * CHANNELS) as nat) == words(
                    all,
                    at,
                    (FRAME_SAMPLES * CHANNELS) as nat,
                )) by {
                    assert forall|i: int| 0 <= i < FRAME_SAMPLES * CHANNELS implies #[trigger] word(
                        before,
                        0 + i * 4,
                    ) == word(all, at + i * 4) by {}
                }
            }
            frames.push(frame);
        }
        assert(frames@.len() == all.len() / FRAME_BYTES as nat);
        assert(frame_list(frames@) == frames_in(all));
        frames
    }
}

/// What happens to the bytes that wait to be played: a frame comes in, no frame is there
/// to come in, or the device takes what it has room for.
#[verifier::ext_equal]
pub enum PlayEvent {
    Frame { available: int, frame: Seq<u32> },
    Empty { available: int },
    Write { available: int },
}

/// As many bytes of silence.
pub open spec fn silence(count: int) -> Seq<u8> {
    Seq::new(
        if count > 0 {
            count as nat
        } else {
            0
        },
        |i: int| 0u8,
    )
}

/// Whether an event comes in its turn: frames and silence while the device has room for
/// more than is queued, a write once it has not.
pub open spec fn in_turn(queue: Seq<u8>, event: PlayEvent) -> bool {
    match event {
        PlayEvent::Frame { available, .. } => queue.len() < available * BLOCK_ALIGN,
        PlayEvent::Empty { available } => queue.len() < available * BLOCK_ALIGN,
        PlayEvent::Write { available } => 0 <= available * BLOCK_ALIGN <= queue.len(),
    }
}

/// The bytes that an event puts into the queue: those of a frame, or as much silence as
/// the device has room for.
pub open spec fn supplied(queue: Seq<u8>, event: PlayEvent) -> Seq<u8> {
    match event {
        PlayEvent::Frame { frame, .. } => all_bytes(frame),
        PlayEvent::Empty { available } => silence(available * BLOCK_ALIGN - queue.len()),
        PlayEvent::Write { .. } => seq![],
    }
}

/// The bytes that the device takes.
pub open spec fn played(queue: Seq<u8>, event: PlayEvent) -> Seq<u8> {
    match event {
        PlayEvent::Write { available } => queue.take(available * BLOCK_ALIGN),
        _ => seq![],
    }
}

/// The queue after an event.
pub open spec fn queue_after(queue: Seq<u8>, event: PlayEvent) -> Seq<u8> {
    match event {
        PlayEvent::Write { available } => queue.skip(available * BLOCK_ALIGN),
        _ => queue + supplied(queue, event),
    }
}

/// The queue after events.
pub open spec fn queue_after_all(queue: Seq<u8>, events: Seq<PlayEvent>) -> Seq<u8>
    decreases events.len(),
{
    if events.len() == 0 {
        queue
    } else {
        queue_after(queue_after_all(queue, events.drop_last()), events.last())
    }
}

/// Whether events all come in their turn.
pub open spec fn all_in_turn(queue: Seq<u8>, events: Seq<PlayEvent>) -> bool
    decreases events.len(),
{
    events.len() == 0 || (all_in_turn(queue, events.drop_last()) && in_turn(
        queue_after_all(queue, events.drop_last()),
        events.last(),
    ))
}

/// The bytes that events put into the queue, in order.
pub open spec fn all_supplied(queue: Seq<u8>, events: Seq<PlayEvent>) -> Seq<u8>
    decreases events.len(),
{
    if events.len() == 0 {
        seq![]
    } else {
        all_supplied(queue, events.drop_last()) + supplied(
            queue_after_all(queue, events.drop_last()),
            events.last(),
        )
    }
}

/// The bytes that the device takes over events, in order.
pub open spec fn all_played(queue: Seq<u8>, events: Seq<PlayEvent>) -> Seq<u8>
    decreases events.len(),
{
    if events.len() == 0 {
        seq![]
    } else {
        all_played(queue, events.drop_last()) + played(
            queue_after_all(queue, events.drop_last()),
            events.last(),
        )
    }
}

/// What is played, and what still waits, is all that was queued, in order: the bytes of
/// every sample of every frame, and between them silence only where no frame was there
/// and the device had room for more than was queued.
pub proof fn law_all_sound_is_played(queue: Seq<u8>, events: Seq<PlayEvent>)
    requires
        all_in_turn(queue, events),
    ensures
        all_played(queue, events) + queue_after_all(queue, events) == queue + all_supplied(
            queue,
            events,
        ),
    decreases events.len(),
{
    if events.len() == 0 {
        assert(all_played(queue, events) + queue == queue + all_supplied(queue, events));
    } else {
        let before = events.drop_last();
        let event = events.last();
        let held = queue_after_all(queue, before);
        law_all_sound_is_played(queue, before);
        let (out, sent) = (all_played(queue, before), all_supplied(queue, before));
        match event {
            PlayEvent::Write { available } => {
                let count = available * BLOCK_ALIGN;
                assert(out + held.take(count) + held.skip(count) == out + held);
                assert(sent + Seq::<u8>::empty() == sent);
            },
            _ => {
                let more = supplied(held, event);
                assert(out + Seq::<u8>::empty() + (held + more) == (out + held) + more);
                assert(queue + (sent + more) == (queue + sent) + more);
            },
        }
    }
}

/// Silence is queued just as far as one write needs it: the next write takes all that is
/// queued, which is what the device has room for.
pub proof fn law_silence_fills_one_write(queue: Seq<u8>, available: int)
    requires
        in_turn(queue, PlayEvent::Empty { available }),
    ensures
        ({
            let full = queue_after(queue, PlayEvent::Empty { available });
            &&& in_turn(full, PlayEvent::Write { available })
            &&& played(full, PlayEvent::Write { available }) == full
            &&& full.len() == available * BLOCK_ALIGN
        }),
{
}

/// The bytes that wait to be played. They are samples of four bytes, one behind
/// the other.
pub struct PlaybackQueue {
    bytes: VecDeque<u8>,
}

impl View for PlaybackQueue {
    type V = Seq<u8>;

    closed spec fn view(&self) -> Seq<u8> {
        self.bytes@
    }
}

impl PlaybackQueue {
    /// Whether the queue holds whole samples.
    pub open spec fn whole(&self) -> bool {
        self@.len() % 4 == 0
    }

    pub fn new() -> (queue: Self)
        ensures
            queue@.len() == 0,
            queue.whole(),
    {
        Self { bytes: VecDeque::new() }
    }

    /// Whether the device has room for more than is queued.
    pub fn wants(&self, available: usize) -> (more: bool)
        requires
            available * BLOCK_ALIGN <= usize::MAX,
        ensures
            more == (self@.len() < available * BLOCK_ALIGN),
    {
        self.bytes.len() < available * BLOCK_ALIGN
    }

    /// Queues the samples of a frame.
    pub fn push(&mut self, frame: &[u32])
        ensures
            final(self)@ == old(self)@ + all_bytes(frame@),
            old(self).whole() ==> final(self).whole(),
    {
        let mut i: usize = 0;
        assert(old(self)@ + all_bytes(frame@.take(0)) == old(self)@);
        while i < frame.len()
            invariant
                i <= frame@.len(),
                self@ == old(self)@ + all_bytes(frame@.take(i as int)),
            decreases frame@.len() - i,
        {
            let w: u32 = frame[i];
            let ghost before = self@;
            self.bytes.push_back((w % 0x100) as u8);
            self.bytes.push_back((w / 0x100 % 0x100) as u8);
            self.bytes.push_back((w / 0x1_0000 % 0x100) as u8);
            self.bytes.push_back((w / 0x100_0000) as u8);
            proof {
                assert(self@ == before + word_bytes(w));
                let now = frame@.take(i + 1);
                assert(all_bytes(now) == all_bytes(frame@.take(i as int)) + word_bytes(w)) by {
                    assert forall|k: int| 0 <= k < now.len() * 4 implies #[trigger] all_bytes(
                        now,
                    )[k] == (all_bytes(frame@.take(i as int)) + word_bytes(w))[k] by {
                        if k >= i * 4 {
                            assert(k / 4 == i && k % 4 == k - i * 4);
                        }
                    }
                }
            }
            i += 1;
        }
        assert(frame@.take(frame@.len() as int) == frame@);
    }

    /// While the device has room for more than is queued: queues the next frame, or
    /// silence where there is none.
    pub fn offer(&mut self, frame: Option<&[u32]>, available: usize)
        requires
            old(self).whole(),
            available * BLOCK_ALIGN <= usize::MAX,
            old(self)@.len() < available * BLOCK_ALIGN,
        ensures
            final(self).whole(),
            final(self)@ == queue_after(
                old(self)@,
                match frame {
                    Some(samples) => PlayEvent::Frame {
                        available: available as int,
                        frame: samples@,
                    },
                    None => PlayEvent::Empty { available: available as int },
                },
            ),
    {
        match frame {
            Some(samples) => self.push(samples),
            None => self.pad(available),
        }
    }

    /// Queues silence, as much as the device has room for.
    pub fn pad(&mut self, available: usize)
        requires
            old(self).whole(),
            available * BLOCK_ALIGN <= usize::MAX,
        ensures
            final(self).whole(),
            final(self)@ == old(self)@ + silence(available * BLOCK_ALIGN - old(self)@.len()),
    {
        let ghost mut added: nat = 0;
        while self.wants(available)
            invariant
                self.whole(),
                available * BLOCK_ALIGN <= usize::MAX,
                added > 0 ==> old(self)@.len() + added <= available * BLOCK_ALIGN,
                self@ == old(self)@ + silence(added as int),
            decreases available * BLOCK_ALIGN - self@.len(),
        {
            self.bytes.push_back(0);
            self.bytes.push_back(0);
            self.bytes.push_back(0);
            self.bytes.push_back(0);
            proof {
                assert(self@ == old(self)@ + silence(added as int + 4));
                added = added + 4;
            }
        }
        assert(self@ == old(self)@ + silence(available * BLOCK_ALIGN - old(self)@.len()));
    }

    /// Takes the bytes that the device has room for.
    #[verifier::spinoff_prover]
    #[verifier::rlimit(40)]
    pub fn take(&mut self, available: usize) -> (bytes: Vec<u8>)
        requires
            old(self).whole(),
            available * BLOCK_ALIGN <= old(self)@.len(),
        ensures
            final(self).whole(),
            bytes@ == played(old(self)@, PlayEvent::Write { available: available as int }),
            bytes@.len() == available * BLOCK_ALIGN,
            final(self)@ == queue_after(
                old(self)@,
                PlayEvent::Write { available: available as int },
            ),
    {
        let mut bytes: Vec<u8> = Vec::new();
        assert(self.bytes.len() == self@.len());
        let count: usize = available * BLOCK_ALIGN;
        assert(self@ == old(self)@.skip(0));
        while bytes.len() < count
            invariant
                bytes@.len() <= count <= old(self)@.len(),
                bytes@ == old(self)@.take(bytes@.len() as int),
                self@ == old(self)@.skip(bytes@.len() as int),
            decreases count - bytes@.len(),
        {
            let ghost n = bytes@.len() as int;
            bytes.push(pop_byte(&mut self.bytes));
            assert(bytes@ == old(self)@.take(n + 1));
            assert(self@ == old(self)@.skip(n + 1));
        }
        bytes
    }
}

/// The root that is selected is a root, and no root has more descendants. Of those that
/// have as many it has the largest id.
pub proof fn law_selected_root_leads_the_largest_tree(
    processes: Seq<(u32, u32)>,
    selected: u32,
    other: u32,
)
    requires
        is_best_root(processes, Some(selected)),
        is_root(processes, other),
    ensures
        is_root(processes, selected),
        descendants(processes, other, processes.len()) <= descendants(
            processes,
            selected,
            processes.len(),
        ),
        descendants(processes, other, processes.len()) == descendants(
            processes,
            selected,
            processes.len(),
        ) ==> other <= selected,
{
}

/// Where there are processes and no walk up goes round in a circle, a root is selected.
pub proof fn law_some_root_is_selected(processes: Seq<(u32, u32)>)
    requires
        distinct(processes),
        acyclic(processes),
        processes.len() > 0,
    ensures
        !is_best_root(processes, None),
        exists|pid: u32| is_root(processes, pid),
{
    let pid = processes[0].0;
    let end = choose|steps: nat| #[trigger] leaves_at(processes, pid, steps);
    assert(leaves_at(processes, pid, end));
    lemma_first_parent_at(processes, 0);
    assert(ancestor(processes, pid, 0) == Some(pid));
    let below = ancestor(processes, pid, (end - 1) as nat)->0;
    let i = lemma_place_of(processes, below);
    assert(is_root(processes, processes[i].0));
}

proof fn lemma_has_parent(processes: Seq<(u32, u32)>, pid: u32)
    ensures
        first_parent(processes, pid) is Some <==> exists|i: int|
            0 <= i < processes.len() && (#[trigger] processes[i]).0 == pid,
{
    lemma_listed(processes, pid);
    let ids = processes.map(|i: int, process: (u32, u32)| process.0);
    if first_parent(processes, pid) is Some {
        let i = lemma_place_of(processes, pid);
    }
    if exists|i: int| 0 <= i < processes.len() && (#[trigger] processes[i]).0 == pid {
        let i = choose|i: int| 0 <= i < processes.len() && (#[trigger] processes[i]).0 == pid;
        assert(ids[i] == pid);
    }
}

/// A listed process is a root just where its parent is not listed.
pub proof fn law_roots_have_no_listed_parent(processes: Seq<(u32, u32)>, i: int)
    requires
        distinct(processes),
        0 <= i < processes.len(),
    ensures
        is_root(processes, processes[i].0) <==> forall|j: int|
            0 <= j < processes.len() ==> (#[trigger] processes[j]).0 != processes[i].1,
{
    lemma_has_parent(processes, processes[i].1);
    if is_root(processes, processes[i].0) {
        let k = choose|k: int|
            0 <= k < processes.len() && (#[trigger] processes[k]).0 == processes[i].0
                && first_parent(processes, processes[k].1) is None;
        assert(k == i);
    }
}

/// What is not listed is no root.
pub proof fn law_roots_are_listed(processes: Seq<(u32, u32)>, pid: u32)
    requires
        is_root(processes, pid),
    ensures
        exists|i: int| 0 <= i < processes.len() && (#[trigger] processes[i]).0 == pid,
{
}

/// Above a listed process stand the process itself and what stands above its parent; above
/// what is not listed, nothing but itself.
pub proof fn law_above_goes_from_parent_to_parent(
    processes: Seq<(u32, u32)>,
    root: u32,
    i: int,
    stranger: u32,
)
    requires
        distinct(processes),
        forall|j: int| 0 <= j < processes.len() ==> (#[trigger] processes[j]).0 != stranger,
    ensures
        0 <= i < processes.len() ==> is_above(processes, root, processes[i].0) == (root
            == processes[i].0 || is_above(processes, root, processes[i].1)),
        is_above(processes, root, stranger) == (root == stranger),
{
    if 0 <= i < processes.len() {
        lemma_first_parent_at(processes, i);
        lemma_above_split(processes, root, processes[i].0, processes[i].1);
    }
    lemma_has_parent(processes, stranger);
    assert(ancestor(processes, stranger, 0) == Some(stranger));
    if is_above(processes, root, stranger) {
        let steps = choose|steps: nat| #[trigger]
            ancestor(processes, stranger, steps) == Some(root);
        if steps > 0 {
            lemma_top(processes, stranger, 0, steps);
        }
    }
}

/// The descendants of a process are the processes that have it above their parent, each
/// counted once.
pub proof fn law_descendants_are_counted_once(processes: Seq<(u32, u32)>, root: u32, n: nat)
    requires
        n < processes.len(),
    ensures
        descendants(processes, root, 0) == 0,
        is_above(processes, root, processes[n as int].1) ==> descendants(processes, root, n + 1)
            == descendants(processes, root, n) + 1,
        !is_above(processes, root, processes[n as int].1) ==> descendants(processes, root, n + 1)
            == descendants(processes, root, n),
{
}

proof fn lemma_wide_len(name: Seq<u16>)
    ensures
        wide_len(name) <= name.len(),
        forall|i: int| 0 <= i < wide_len(name) ==> name[i] != 0,
        wide_len(name) < name.len() ==> name[wide_len(name) as int] == 0,
    decreases name.len(),
{
    if !(name.len() == 0 || name.first() == 0) {
        lemma_wide_len(name.drop_first());
        assert forall|i: int| 0 <= i < wide_len(name) implies name[i] != 0 by {
            if i > 0 {
                assert(name.drop_first()[i - 1] == name[i]);
            }
        }
    }
}

/// The name of a program ends at the first zero, whatever stands behind it. It has a
/// character for each unit before: the same one, but small letters for A to Z, and a
/// question mark for half of a pair.
pub proof fn law_name_ends_at_the_zero(name: Seq<u16>, rest: Seq<u16>)
    requires
        forall|i: int| 0 <= i < name.len() ==> name[i] != 0,
    ensures
        image_of(name + seq![0u16] + rest) == image_of(name),
        image_of(name).len() == name.len(),
        forall|i: int|
            0 <= i < name.len() ==> {
                let c = (#[trigger] image_of(name)[i]) as int;
                let unit = name[i] as int;
                &&& 65 <= unit <= 90 ==> c == unit + 32
                &&& (unit < 65 || (90 < unit && unit < 0xd800) || 0xdfff < unit) ==> c == unit
                &&& 0xd800 <= unit <= 0xdfff ==> c == 63
            },
{
    let long = name + seq![0u16] + rest;
    lemma_wide_len(name);
    lemma_wide_len(long);
    assert(long[name.len() as int] == 0);
    if wide_len(long) < name.len() {
        assert(long[wide_len(long) as int] == name[wide_len(long) as int]);
    }
    assert(wide_len(long) == name.len());
    assert(image_of(long) =~= image_of(name));
}

/// The programs that are left out are called discord, with ptb, canary or nothing behind
/// it, and .exe at the end.
pub proof fn law_discord_is_named(name: Seq<char>)
    ensures
        names_discord(name) <==> (name == "discord"@ + ".exe"@ || name == "discord"@ + "ptb"@
            + ".exe"@ || name == "discord"@ + "canary"@ + ".exe"@),
{
    reveal_strlit("discord");
    reveal_strlit("ptb");
    reveal_strlit("canary");
    reveal_strlit(".exe");
    reveal_strlit("discord.exe");
    reveal_strlit("discordptb.exe");
    reveal_strlit("discordcanary.exe");
    assert("discord.exe"@ =~= "discord"@ + ".exe"@);
    assert("discordptb.exe"@ =~= "discord"@ + "ptb"@ + ".exe"@);
    assert("discordcanary.exe"@ =~= "discord"@ + "canary"@ + ".exe"@);
}

/// The processes of two lists, one behind the other, are found as those of each list are;
/// one process is found with its id and that of its parent just where its program is one
/// that is left out.
pub proof fn law_processes_are_found_one_by_one(
    a: Seq<ProcessEntry>,
    b: Seq<ProcessEntry>,
    entry: ProcessEntry,
)
    ensures
        discord_entries(a + b) == discord_entries(a) + discord_entries(b),
        discord_entries(seq![entry]) == if names_discord(image_of(entry.image@)) {
            seq![(entry.pid, entry.parent)]
        } else {
            seq![]
        },
    decreases b.len(),
{
    let none = Seq::<ProcessEntry>::empty();
    assert(seq![entry].drop_last() =~= none);
    assert(discord_entries(none) =~= Seq::<(u32, u32)>::empty());
    assert(discord_entries(seq![entry]) =~= if names_discord(image_of(entry.image@)) {
        seq![(entry.pid, entry.parent)]
    } else {
        seq![]
    });
    if b.len() == 0 {
        assert(a + b =~= a);
        assert(discord_entries(a) + discord_entries(b) =~= discord_entries(a));
    } else {
        law_processes_are_found_one_by_one(a, b.drop_last(), entry);
        assert((a + b).drop_last() =~= a + b.drop_last());
        assert(discord_entries(a + b) =~= discord_entries(a) + discord_entries(b));
    }
}

/// A sample is read with its lowest byte first.
pub proof fn law_samples_are_read_lowest_first(bytes: Seq<u8>, at: int)
    ensures
        word(bytes, at) % 0x100 == bytes[at],
        word(bytes, at) / 0x100 % 0x100 == bytes[at + 1],
        word(bytes, at) / 0x1_0000 % 0x100 == bytes[at + 2],
        word(bytes, at) / 0x100_0000 == bytes[at + 3],
{
    lemma_word_of_bytes(bytes[at], bytes[at + 1], bytes[at + 2], bytes[at + 3]);
}

/// A sample is written with its lowest byte first, four bytes each.
pub proof fn law_samples_are_written_lowest_first(list: Seq<u32>, i: int)
    requires
        0 <= i < list.len(),
    ensures
        all_bytes(list).len() == 4 * list.len(),
        all_bytes(list)[4 * i] == list[i] % 0x100,
        all_bytes(list)[4 * i + 1] == list[i] / 0x100 % 0x100,
        all_bytes(list)[4 * i + 2] == list[i] / 0x1_0000 % 0x100,
        all_bytes(list)[4 * i + 3] == list[i] / 0x100_0000,
{
    let w = list[i];
    assert((4 * i) / 4 == i && (4 * i + 1) / 4 == i && (4 * i + 2) / 4 == i && (4 * i + 3) / 4
        == i);
}

/// Every 7680 bytes make a frame of 1920 samples, one for each four bytes, in order; what
/// is left makes none.
pub proof fn law_frames_are_cut_in_order(bytes: Seq<u8>, k: int, j: int)
    ensures
        frames_in(bytes).len() * 7680 <= bytes.len() < (frames_in(bytes).len() + 1) * 7680,
        0 <= k < frames_in(bytes).len() && 0 <= j < 1920 ==> frames_in(bytes)[k].len() == 1920
            && frames_in(bytes)[k][j] == word(bytes, 7680 * k + 4 * j),
{
    if 0 <= k < frames_in(bytes).len() && 0 <= j < 1920 {
        assert(frames_in(bytes)[k] == words(bytes, k * FRAME_BYTES, 1920));
        assert(k * FRAME_BYTES + j * 4 == 7680 * k + 4 * j);
    }
}

/// The device takes the bytes that have waited longest, eight for each place that it has,
/// and the others wait on.
pub proof fn law_oldest_sound_is_played_first(queue: Seq<u8>, available: int)
    requires
        0 <= available * 8 <= queue.len(),
    ensures
        ({
            let write = PlayEvent::Write { available };
            &&& played(queue, write) + queue_after(queue, write) == queue
            &&& played(queue, write).len() == available * 8
        }),
{
    let write = PlayEvent::Write { available };
    assert(played(queue, write) + queue_after(queue, write) =~= queue);
}

/// A frame goes behind what waits, as the bytes of its samples; nothing is played by that.
/// Where there is no frame, zeros fill the room of the device.
pub proof fn law_new_sound_waits_behind_the_old(
    queue: Seq<u8>,
    available: int,
    frame: Seq<u32>,
    i: int,
)
    ensures
        ({
            let came = PlayEvent::Frame { available, frame };
            let none = PlayEvent::Empty { available };
            &&& queue_after(queue, came) == queue + all_bytes(frame)
            &&& played(queue, came).len() == 0
            &&& played(queue, none).len() == 0
            &&& queue.len() <= available * 8 ==> {
                let filled = queue_after(queue, none);
                &&& filled.len() == available * 8
                &&& filled.take(queue.len() as int) == queue
                &&& queue.len() <= i < filled.len() ==> filled[i] == 0
            }
        }),
{
    let filled = queue_after(queue, PlayEvent::Empty { available });
    if queue.len() <= available * 8 {
        assert(filled.take(queue.len() as int) =~= queue);
    }
}

/// What is left out is the process that was found. Where looking failed, nothing is, and a
/// message tells why; where what is left out stays the same, there is no other message.
pub proof fn law_target_is_what_was_found(
    found: Result<Option<u32>, String>,
    before: Option<u32>,
    pid: u32,
)
    ensures
        target_of(Ok(Some(pid))) == Some(pid),
        found is Err ==> target_of(found) is None,
        target_messages(found, before).len() == (if found is Err {
            1int
        } else {
            0
        }) + (if target_of(found) == before {
            0int
        } else {
            1
        }),
{
}

/// The frames of a list are those of its vectors, in their order.
pub proof fn law_frames_stay_in_order(list: Seq<Vec<u32>>, i: int)
    ensures
        frame_list(list).len() == list.len(),
        0 <= i < list.len() ==> frame_list(list)[i] == list[i]@,
{
}

/// A message tells the id of the process that is left out from now on, and an error in its
/// own words.
pub proof fn law_messages_tell_what_is_left_out(pid: u32, before: Option<u32>, error: String)
    ensures
        before != Some(pid) ==> target_messages(Ok(Some(pid)), before).len() == 1 && occurs_in(
            "(pid "@ + digits(pid as nat) + ")"@,
            target_messages(Ok(Some(pid)), before)[0],
        ),
        occurs_in(error@, target_messages(Err(error), before)[0]),
{
    let words = "Discord audio excluded from the stream (pid "@;
    let front = "Discord audio excluded from the stream "@;
    reveal_strlit("Discord audio excluded from the stream (pid ");
    reveal_strlit("Discord audio excluded from the stream ");
    reveal_strlit("(pid ");
    assert(words =~= front + "(pid "@);
    let message = words + digits(pid as nat) + ")"@;
    let part = "(pid "@ + digits(pid as nat) + ")"@;
    assert(message =~= front + part + Seq::<char>::empty());
    law_parts_occur(part, message, front, Seq::empty());
    let failed = "Discord detection failed: "@ + error@;
    assert(failed =~= "Discord detection failed: "@ + error@ + Seq::<char>::empty());
    law_parts_occur(error@, failed, "Discord detection failed: "@, Seq::empty());
}

/// A frame lasts a fiftieth of a second at 48,000 samples a second, has both channels, and
/// four bytes for each sample. The bytes of one moment are those of both channels.
pub proof fn law_a_frame_lasts_twenty_milliseconds()
    ensures
        SAMPLE_RATE == 48_000,
        50 * FRAME_SAMPLES == SAMPLE_RATE,
        CHANNELS == 2,
        BYTES_PER_SAMPLE == 4,
        BLOCK_ALIGN == CHANNELS * BYTES_PER_SAMPLE,
        FRAME_BYTES == FRAME_SAMPLES * BLOCK_ALIGN,
{
}

/// The processes are looked through every two seconds. A client that leaves one out has a
/// buffer of twenty milliseconds, in units of a hundred nanoseconds.
pub proof fn law_audio_times()
    ensures
        EXCLUSION_RESCAN_INTERVAL == 2 * 1_000_000_000,
        PROCESS_LOOPBACK_PERIOD_HNS * 100 == 20 * 1_000_000,
{
}

} // verus!
