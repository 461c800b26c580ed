use vstd::prelude::*;
use crate::text::{dec, fixed2, push_char, push_dec, push_fixed2};
use vstd::set_lib::{lemma_int_range, lemma_len_subset, set_int_range};

verus! {

/// Number of processes listed in a sample's summary.
pub const TOP_COUNT: usize = 5;

/// `used` as a share of `total`, in hundredths of a percent rounded to the
/// nearest (halves up); zero when the total is zero.
pub open spec fn percent_of(used: nat, total: nat) -> nat {
    if total == 0 {
        0
    } else {
        (used * 20000 + total) / (2 * total)
    }
}

/// The share of `used` in `total` in hundredths of a percent, capped at
/// `u64::MAX`; zero when nothing is known of the total.
pub fn percent_centi(used: u64, total: u64) -> (r: u64)
    ensures
        r as nat == if percent_of(used as nat, total as nat) <= u64::MAX {
            percent_of(used as nat, total as nat)
        } else {
            u64::MAX as nat
        },
{
    if total == 0 {
        return 0;
    }
    let q: u128 = (used as u128 * 20000 + total as u128) / (2 * total as u128);
    if q > u64::MAX as u128 {
        u64::MAX
    } else {
        q as u64
    }
}

/// Sum of `s`, saturating at `u64::MAX` at every step.
pub open spec fn sat_sum(s: Seq<u64>) -> nat
    decreases s.len(),
{
    if s.len() == 0 {
        0
    } else {
        let p = sat_sum(s.drop_last()) + s.last();
        if p > u64::MAX {
            u64::MAX as nat
        } else {
            p as nat
        }
    }
}

/// Space in use on one disk: its total less what is available, never below zero.
pub open spec fn disk_used(d: (u64, u64)) -> u64 {
    if d.1 <= d.0 {
        (d.0 - d.1) as u64
    } else {
        0
    }
}

/// Disk usage over all disks, each given as (total space, available space), in
/// hundredths of a percent of the total space.
pub fn disk_usage(disks: &Vec<(u64, u64)>) -> (r: u64)
    ensures
        r == percent_centi_spec(
            sat_sum(disks@.map_values(|d: (u64, u64)| disk_used(d))),
            sat_sum(disks@.map_values(|d: (u64, u64)| d.0)),
        ),
{
    let mut used: u64 = 0;
    let mut total: u64 = 0;
    let mut i: usize = 0;
    while i < disks.len()
        invariant
            i <= disks@.len(),
            used == sat_sum(disks@.take(i as int).map_values(|d: (u64, u64)| disk_used(d))),
            total == sat_sum(disks@.take(i as int).map_values(|d: (u64, u64)| d.0)),
        decreases disks@.len() - i,
    {
        let (t, a) = disks[i];
        let u = if a <= t {
            t - a
        } else {
            0
        };
        used = used.saturating_add(u);
        total = total.saturating_add(t);
        proof {
            let nu = disks@.take(i + 1).map_values(|d: (u64, u64)| disk_used(d));
            let nt = disks@.take(i + 1).map_values(|d: (u64, u64)| d.0);
            assert(nu.drop_last() =~= disks@.take(i as int).map_values(|d: (u64, u64)| disk_used(d)));
            assert(nt.drop_last() =~= disks@.take(i as int).map_values(|d: (u64, u64)| d.0));
        }
        i = i + 1;
    }
    assert(disks@.take(disks@.len() as int) =~= disks@);
    percent_centi(used, total)
}

/// What `percent_centi` returns on these arguments.
pub open spec fn percent_centi_spec(used: nat, total: nat) -> u64 {
    if percent_of(used, total) <= u64::MAX {
        percent_of(used, total) as u64
    } else {
        u64::MAX
    }
}

/// One running process as the summary needs it.
pub struct ProcessInfo {
    pub name: String,
    pub pid: u32,
    pub cpu_centi: u64,
    pub mem_bytes: u64,
}

/// Process `a` is listed before process `b`: more CPU first, and among equal
/// loads the one met first.
pub open spec fn ranks_before(p: Seq<ProcessInfo>, a: int, b: int) -> bool {
    p[a].cpu_centi > p[b].cpu_centi || (p[a].cpu_centi == p[b].cpu_centi && a < b)
}

/// `idx` lists the first `min(k, |p|)` processes in ranking order, and every
/// process left out ranks after all those listed.
pub open spec fn is_top(p: Seq<ProcessInfo>, k: nat, idx: Seq<usize>) -> bool {
    &&& idx.len() == if p.len() < k {
        p.len()
    } else {
        k
    }
    &&& forall|i: int| 0 <= i < idx.len() ==> #[trigger] idx[i] < p.len()
    &&& forall|i: int, j: int|
        0 <= i < j < idx.len() ==> ranks_before(p, #[trigger] idx[i] as int, #[trigger] idx[j] as int)
    &&& forall|j: usize|
        j < p.len() && !#[trigger] idx.contains(j) && idx.len() > 0 ==> ranks_before(
            p,
            idx.last() as int,
            j as int,
        )
}

/// Positions of the `k` busiest processes, busiest first; ties keep the order
/// in which the processes were given.
pub fn top_processes(procs: &Vec<ProcessInfo>, k: usize) -> (r: Vec<usize>)
    ensures
        is_top(procs@, k as nat, r@),
{
    let n = procs.len();
    let mut r: Vec<usize> = Vec::new();
    while r.len() < k && r.len() < n
        invariant
            n == procs@.len(),
            r@.len() <= k,
            r@.len() <= n,
            forall|i: int| 0 <= i < r@.len() ==> #[trigger] r@[i] < n,
            forall|i: int, j: int|
                0 <= i < j < r@.len() ==> ranks_before(
                    procs@,
                    #[trigger] r@[i] as int,
                    #[trigger] r@[j] as int,
                ),
            forall|j: usize|
                j < n && !#[trigger] r@.contains(j) && r@.len() > 0 ==> ranks_before(
                    procs@,
                    r@.last() as int,
                    j as int,
                ),
        decreases n - r@.len(),
    {
        // The best-ranked process not listed yet.
        let mut best: usize = n;
        let mut j: usize = 0;
        while j < n
            invariant
                n == procs@.len(),
                j <= n,
                r@.len() < n,
                forall|i: int| 0 <= i < r@.len() ==> #[trigger] r@[i] < n,
                forall|i: int, j: int|
                    0 <= i < j < r@.len() ==> ranks_before(
                        procs@,
                        #[trigger] r@[i] as int,
                        #[trigger] r@[j] as int,
                    ),
                forall|j: usize|
                    j < n && !#[trigger] r@.contains(j) && r@.len() > 0 ==> ranks_before(
                        procs@,
                        r@.last() as int,
                        j as int,
                    ),
                best <= n,
                best < n ==> best < j && !r@.contains(best),
                best == n ==> forall|m: usize| m < j ==> #[trigger] r@.contains(m),
                best < n ==> forall|m: usize|
                    m < j && !#[trigger] r@.contains(m) && m != best ==> ranks_before(
                        procs@,
                        best as int,
                        m as int,
                    ),
            decreases n - j,
        {
            let mut listed = false;
            let mut t: usize = 0;
            while t < r.len()
                invariant
                    t <= r@.len(),
                    listed == exists|u: int| 0 <= u < t && r@[u] == j,
                decreases r@.len() - t,
            {
                if r[t] == j {
                    listed = true;
                }
                t = t + 1;
            }
            assert(listed == r@.contains(j));
            if !listed {
                if best == n || procs[j].cpu_centi > procs[best].cpu_centi {
                    proof {
                        assert forall|m: usize|
                            m < j + 1 && !#[trigger] r@.contains(m) && m != j implies ranks_before(
                            procs@,
                            j as int,
                            m as int,
                        ) by {
                            if best < n && m != best {
                                assert(ranks_before(procs@, best as int, m as int));
                            }
                        }
                    }
                    best = j;
                } else {
                    assert(ranks_before(procs@, best as int, j as int));
                }
            }
            j = j + 1;
        }
        proof {
            if best == n {
                // Every position is listed, so the list would hold n distinct positions.
                lemma_missing_position(r@, n as nat);
            }
        }
        let ghost old_r = r@;
        r.push(best);
        proof {
            if old_r.len() > 0 {
                assert(ranks_before(procs@, old_r.last() as int, best as int));
            }
            assert forall|i: int| 0 <= i < old_r.len() implies ranks_before(
                procs@,
                #[trigger] old_r[i] as int,
                best as int,
            ) by {
                assert(ranks_before(procs@, old_r.last() as int, best as int));
                if i < old_r.len() - 1 {
                    assert(ranks_before(procs@, old_r[i] as int, old_r.last() as int));
                }
            }
            assert forall|m: usize| m < n && !#[trigger] r@.contains(m) implies ranks_before(
                procs@,
                r@.last() as int,
                m as int,
            ) by {
                assert(!old_r.contains(m)) by {
                    if old_r.contains(m) {
                        let u = choose|u: int| 0 <= u < old_r.len() && old_r[u] == m;
                        assert(r@[u] == m);
                    }
                }
                assert(m != best) by {
                    assert(r@[old_r.len() as int] == best);
                }
            }
        }
    }
    r
}

/// Memory in hundredths of a mebibyte, rounded to the nearest (halves up).
pub open spec fn mem_centi_mb(bytes: nat) -> nat {
    (bytes * 200 + 1048576) / 2097152
}

/// Memory in hundredths of a mebibyte, rounded to the nearest (halves up).
pub fn mem_centi_mb_of(bytes: u64) -> (r: u64)
    ensures
        r == mem_centi_mb(bytes as nat),
{
    let q: u128 = (bytes as u128 * 200 + 1048576) / 2097152;
    assert(q <= u64::MAX) by (nonlinear_arith)
        requires
            q == (bytes * 200 + 1048576) / 2097152,
            bytes <= u64::MAX,
    ;
    q as u64
}

/// One process in the summary: `\n<name> (PID: <pid>) - <cpu>% | <mem> MB`.
pub open spec fn process_line(p: ProcessInfo) -> Seq<char> {
    seq!['\n'] + p.name@ + " (PID: "@ + dec(p.pid as nat) + ") - "@ + fixed2(p.cpu_centi as nat)
        + "% | "@ + fixed2(mem_centi_mb(p.mem_bytes as nat)) + " MB"@
}

/// The lines of the listed processes joined by ` | `.
pub open spec fn summary_text(p: Seq<ProcessInfo>, idx: Seq<usize>) -> Seq<char>
    decreases idx.len(),
{
    if idx.len() == 0 {
        Seq::empty()
    } else if idx.len() == 1 {
        process_line(p[idx[0] as int])
    } else {
        summary_text(p, idx.drop_last()) + " | "@ + process_line(p[idx.last() as int])
    }
}

/// Appends the summary line of one process.
fn push_process_line(s: &mut String, p: &ProcessInfo)
    ensures
        final(s)@ == old(s)@ + process_line(*p),
{
    push_char(s, '\n');
    s.append(p.name.as_str());
    s.append(" (PID: ");
    push_dec(s, p.pid as u64);
    s.append(") - ");
    push_fixed2(s, p.cpu_centi);
    s.append("% | ");
    push_fixed2(s, mem_centi_mb_of(p.mem_bytes));
    s.append(" MB");
    assert(final(s)@ =~= old(s)@ + process_line(*p));
}

/// The summary of the listed processes, in the order listed.
pub fn summary_of(procs: &Vec<ProcessInfo>, idx: &Vec<usize>) -> (r: String)
    requires
        forall|i: int| 0 <= i < idx@.len() ==> #[trigger] idx@[i] < procs@.len(),
    ensures
        r@ == summary_text(procs@, idx@),
{
    let mut s = String::new();
    let mut i: usize = 0;
    while i < idx.len()
        invariant
            i <= idx@.len(),
            forall|i: int| 0 <= i < idx@.len() ==> #[trigger] idx@[i] < procs@.len(),
            s@ == summary_text(procs@, idx@.take(i as int)),
        decreases idx@.len() - i,
    {
        if i > 0 {
            s.append(" | ");
        }
        push_process_line(&mut s, &procs[idx[i]]);
        proof {
            let t = idx@.take(i + 1);
            assert(t.drop_last() =~= idx@.take(i as int));
            if i == 0 {
                assert(summary_text(procs@, idx@.take(0)) == Seq::<char>::empty());
                assert(s@ =~= summary_text(procs@, t));
            }
        }
        i = i + 1;
    }
    assert(idx@.take(idx@.len() as int) =~= idx@);
    s
}

/// The summary of the busiest processes, busiest first.
pub fn process_summary(procs: &Vec<ProcessInfo>) -> (r: String)
    ensures
        exists|idx: Seq<usize>| is_top(procs@, TOP_COUNT as nat, idx) && r@ == summary_text(procs@, idx),
{
    let idx = top_processes(procs, TOP_COUNT);
    let r = summary_of(procs, &idx);
    assert(is_top(procs@, TOP_COUNT as nat, idx@) && r@ == summary_text(procs@, idx@));
    r
}

/// A list shorter than `n` misses some position below `n`.
proof fn lemma_missing_position(r: Seq<usize>, n: nat)
    requires
        r.len() < n,
        n <= usize::MAX,
    ensures
        exists|m: usize| m < n && !#[trigger] r.contains(m),
{
    broadcast use vstd::seq_lib::seq_to_set_is_finite;

    let ri = r.map_values(|x: usize| x as int);
    ri.lemma_cardinality_of_set();
    lemma_int_range(0, n as int);
    if forall|m: usize| m < n ==> #[trigger] r.contains(m) {
        assert forall|m: int| #[trigger] set_int_range(0, n as int).contains(m) implies ri.to_set().contains(m) by {
            let mu = m as usize;
            assert(r.contains(mu));
            let u = choose|u: int| 0 <= u < r.len() && #[trigger] r[u] == mu;
            assert(ri.len() == r.len());
            assert(ri[u] == r[u] as int);
            assert(ri.contains(m));
            assert(ri.to_set().contains(m));
        }
        lemma_len_subset(set_int_range(0, n as int), ri.to_set());
    }
}

} // verus!
