//! NUMA topology: which CPUs belong to which node.
use vstd::prelude::*;

verus! {

/// Words of a CPU affinity mask.
pub const CPU_AFFINITY_WORDS: usize = 128;

/// Most CPUs the topology tables describe.
pub const MAX_CPUS: usize = 8192;

/// The CPUs of each node, listed node after node.
///
/// The CPUs of node `n` are `node_cpus[node_offsets[n]..node_offsets[n + 1]]`;
/// `cpu_to_node[c]` is the node of CPU `c`, or `usize::MAX` where unknown.
pub struct NumaMaps {
    pub node_offsets: Vec<usize>,
    pub node_cpus: Vec<usize>,
    pub cpu_to_node: Vec<usize>,
    pub node_count: usize,
    pub node_cpu_count: usize,
}

impl NumaMaps {
    pub open spec fn wf(&self) -> bool {
        &&& self.node_count >= 1
        &&& self.node_offsets@.len() > self.node_count
        &&& self.node_cpus@.len() == MAX_CPUS
        &&& self.cpu_to_node@.len() == MAX_CPUS
        &&& self.node_offsets@[self.node_count as int] == self.node_cpu_count
        &&& self.node_cpu_count <= MAX_CPUS
        &&& forall|a: int, b: int| 0 <= a <= b <= self.node_count ==>
                #[trigger] self.node_offsets@[a] <= #[trigger] self.node_offsets@[b]
    }
}


/// A byte that `parse_cpulist_bytes` skips before a number.
pub open spec fn is_blank(b: u8) -> bool {
    b == 32 || b == 10 || b == 9
}

/// An ASCII digit.
pub open spec fn is_digit(b: u8) -> bool {
    48 <= b <= 57
}

/// The first position from `i` on that is not blank.
pub open spec fn skip_blank(s: Seq<u8>, i: int) -> int
    decreases s.len() - i,
{
    if i >= s.len() || !is_blank(s[i]) { i } else { skip_blank(s, i + 1) }
}

/// The first position from `i` on that is not a digit.
pub open spec fn digits_end(s: Seq<u8>, i: int) -> int
    decreases s.len() - i,
{
    if i >= s.len() || !is_digit(s[i]) { i } else { digits_end(s, i + 1) }
}

/// The first position from `i` on that holds a comma, or the end.
pub open spec fn comma_at(s: Seq<u8>, i: int) -> int
    decreases s.len() - i,
{
    if i >= s.len() || s[i] == 44 { i } else { comma_at(s, i + 1) }
}

/// The value of the digits `s[a..e]`, saturated at `usize::MAX`.
pub open spec fn digits_value(s: Seq<u8>, a: int, e: int) -> usize
    decreases e - a,
{
    if e <= a {
        0
    } else {
        let v = digits_value(s, a, e - 1) * 10 + (s[e - 1] - 48);
        if v > usize::MAX { usize::MAX } else { v as usize }
    }
}

/// The CPU ranges of a cpulist (`0-3,8`) from position `i` on: blanks may
/// precede each number; a missing end repeats the start; anything after a
/// range up to the next comma is ignored; parsing stops where a number is
/// missing. Each range is returned with its end raised to its start.
pub open spec fn parse_ranges(s: Seq<u8>, i: int) -> Seq<(usize, usize)>
    decreases s.len() - i,
{
    if i < 0 || i >= s.len() {
        Seq::empty()
    } else {
        let a = skip_blank(s, i);
        let e = digits_end(s, a);
        if e == a {
            Seq::empty()
        } else {
            let start = digits_value(s, a, e);
            let (end, k) = if e < s.len() && s[e] == 45 {
                let a2 = skip_blank(s, e + 1);
                let e2 = digits_end(s, a2);
                (if e2 > a2 { digits_value(s, a2, e2) } else { start }, e2)
            } else {
                (start, e)
            };
            let c = comma_at(s, k);
            let next = if c < s.len() { c + 1 } else { c };
            if next <= i || next > s.len() {
                Seq::empty()
            } else {
                seq![(start, if end < start { start } else { end })] + parse_ranges(s, next)
            }
        }
    }
}

proof fn lemma_skip_blank(s: Seq<u8>, i: int)
    requires
        0 <= i <= s.len(),
    ensures
        i <= skip_blank(s, i) <= s.len(),
    decreases s.len() - i,
{
    if i < s.len() && is_blank(s[i]) {
        lemma_skip_blank(s, i + 1);
    }
}

proof fn lemma_digits_end(s: Seq<u8>, i: int)
    requires
        0 <= i <= s.len(),
    ensures
        i <= digits_end(s, i) <= s.len(),
    decreases s.len() - i,
{
    if i < s.len() && is_digit(s[i]) {
        lemma_digits_end(s, i + 1);
    }
}

proof fn lemma_comma_at(s: Seq<u8>, i: int)
    requires
        0 <= i <= s.len(),
    ensures
        i <= comma_at(s, i) <= s.len(),
    decreases s.len() - i,
{
    if i < s.len() && s[i] != 44 {
        lemma_comma_at(s, i + 1);
    }
}

fn skip_blank_exec(s: &Vec<u8>, i: usize) -> (r: usize)
    requires
        i <= s@.len(),
    ensures
        r == skip_blank(s@, i as int),
        i <= r <= s@.len(),
    decreases s@.len() - i,
{
    proof {
        lemma_skip_blank(s@, i as int);
    }
    if i < s.len() && (s[i] == 32 || s[i] == 10 || s[i] == 9) {
        skip_blank_exec(s, i + 1)
    } else {
        i
    }
}

fn number_exec(s: &Vec<u8>, a: usize) -> (r: (usize, usize))
    requires
        a <= s@.len(),
    ensures
        r.0 == digits_end(s@, a as int),
        r.1 == digits_value(s@, a as int, r.0 as int),
        a <= r.0 <= s@.len(),
{
    proof {
        lemma_digits_end(s@, a as int);
    }
    let mut j = a;
    let mut val: usize = 0;
    while j < s.len() && s[j] >= 48 && s[j] <= 57
        invariant
            a <= j <= s@.len(),
            digits_end(s@, j as int) == digits_end(s@, a as int),
            val == digits_value(s@, a as int, j as int),
        decreases s@.len() - j,
    {
        let d = (s[j] - 48) as usize;
        let ghost exact = val * 10 + d;
        val = if val > (usize::MAX - d) / 10 { usize::MAX } else { val * 10 + d };
        proof {
            assert(digits_value(s@, a as int, j as int + 1) == if exact > usize::MAX { usize::MAX as int } else { exact });
            if val == usize::MAX {
                assert(exact >= usize::MAX) by (nonlinear_arith)
                    requires
                        exact == digits_value(s@, a as int, j as int) * 10 + d,
                        digits_value(s@, a as int, j as int) > (usize::MAX - d) / 10 || exact == usize::MAX,
                        d <= 9,
                ;
            }
        }
        j = j + 1;
    }
    (j, val)
}

fn comma_exec(s: &Vec<u8>, i: usize) -> (r: usize)
    requires
        i <= s@.len(),
    ensures
        r == comma_at(s@, i as int),
        i <= r <= s@.len(),
    decreases s@.len() - i,
{
    proof {
        lemma_comma_at(s@, i as int);
    }
    if i < s.len() && s[i] != 44 {
        comma_exec(s, i + 1)
    } else {
        i
    }
}

/// The CPU ranges of the cpulist `s`, as `parse_ranges` reads them.
pub fn parse_cpulist_ranges(s: &Vec<u8>) -> (r: Vec<(usize, usize)>)
    ensures
        r@ == parse_ranges(s@, 0),
{
    let mut out: Vec<(usize, usize)> = Vec::new();
    let mut i: usize = 0;
    while i < s.len()
        invariant
            i <= s@.len(),
            out@ + parse_ranges(s@, i as int) == parse_ranges(s@, 0),
        decreases s@.len() - i,
    {
        let a = skip_blank_exec(s, i);
        let (e, start) = number_exec(s, a);
        if e == a {
            assert(parse_ranges(s@, i as int) =~= Seq::<(usize, usize)>::empty());
            assert(out@ + Seq::<(usize, usize)>::empty() =~= out@);
            return out;
        }
        let mut end = start;
        let mut k = e;
        if e < s.len() && s[e] == 45 {
            let a2 = skip_blank_exec(s, e + 1);
            let (e2, v2) = number_exec(s, a2);
            if e2 > a2 {
                end = v2;
            }
            k = e2;
        }
        let c = comma_exec(s, k);
        let next = if c < s.len() { c + 1 } else { c };
        let hi = if end < start { start } else { end };
        let ghost old_out = out@;
        out.push((start, hi));
        assert(parse_ranges(s@, i as int) == seq![(start, hi)] + parse_ranges(s@, next as int));
        assert(out@ + parse_ranges(s@, next as int) =~= old_out + parse_ranges(s@, i as int));
        i = next;
    }
    assert(parse_ranges(s@, i as int) =~= Seq::<(usize, usize)>::empty());
    assert(out@ + Seq::<(usize, usize)>::empty() =~= out@);
    out
}

/// `out` after appending the CPUs `s..=e` that are below `MAX_CPUS`, while
/// fewer than `cap` are listed.
pub open spec fn cpus_in(out: Seq<usize>, cap: int, s: int, e: int) -> Seq<usize>
    decreases e + 1 - s,
{
    if s > e || out.len() >= cap {
        out
    } else {
        cpus_in(if s < MAX_CPUS { out.push(s as usize) } else { out }, cap, s + 1, e)
    }
}

/// `out0` after appending the CPUs of the first `n` ranges of `rs`.
pub open spec fn cpus_upto(rs: Seq<(usize, usize)>, n: int, out0: Seq<usize>, cap: int) -> Seq<usize>
    decreases n,
{
    if n <= 0 {
        out0
    } else {
        cpus_in(cpus_upto(rs, n - 1, out0, cap), cap, rs[n - 1].0 as int, rs[n - 1].1 as int)
    }
}

proof fn lemma_cpus_in_grows(out: Seq<usize>, cap: int, s: int, e: int)
    requires
        out.len() <= cap,
    ensures
        cpus_in(out, cap, s, e).len() <= cap,
        cpus_in(out, cap, s, e).len() >= out.len(),
        cpus_in(out, cap, s, e).take(out.len() as int) == out,
    decreases e + 1 - s,
{
    if !(s > e || out.len() >= cap) {
        let next = if s < MAX_CPUS { out.push(s as usize) } else { out };
        lemma_cpus_in_grows(next, cap, s + 1, e);
        assert(next.take(out.len() as int) =~= out);
        assert(cpus_in(out, cap, s, e).take(out.len() as int) =~= cpus_in(next, cap, s + 1, e).take(next.len() as int).take(out.len() as int));
    }
}

/// Appends the CPUs of the cpulist `bytes` to `node_cpus` (from index
/// `node_cpu_count` on, while there is room), skipping those from
/// `MAX_CPUS` up, and records `node_index` as their node in `cpu_to_node`.
pub fn parse_cpulist_bytes(
    bytes: &Vec<u8>,
    node_index: usize,
    node_cpus: &mut Vec<usize>,
    cpu_to_node: &mut Vec<usize>,
    node_cpu_count: &mut usize,
)
    requires
        *old(node_cpu_count) <= old(node_cpus)@.len(),
    ensures
        final(node_cpus)@.len() == old(node_cpus)@.len(),
        final(cpu_to_node)@.len() == old(cpu_to_node)@.len(),
        *old(node_cpu_count) <= *final(node_cpu_count) <= final(node_cpus)@.len(),
        final(node_cpus)@.take(*final(node_cpu_count) as int) == cpus_upto(parse_ranges(bytes@, 0),
            parse_ranges(bytes@, 0).len() as int, old(node_cpus)@.take(*old(node_cpu_count) as int), old(node_cpus)@.len() as int),
        forall|k: int| *final(node_cpu_count) <= k < final(node_cpus)@.len() ==> #[trigger] final(node_cpus)@[k] == old(node_cpus)@[k],
        forall|c: int| 0 <= c < final(cpu_to_node)@.len() ==> #[trigger] final(cpu_to_node)@[c] == if exists|k: int|
            *old(node_cpu_count) <= k < *final(node_cpu_count) && #[trigger] final(node_cpus)@[k] == c {
            node_index
        } else {
            old(cpu_to_node)@[c]
        },
{
    let ranges = parse_cpulist_ranges(bytes);
    let ghost rs = ranges@;
    let ghost c0 = *node_cpu_count;
    let ghost prefix0 = node_cpus@.take(c0 as int);
    let cap = node_cpus.len();
    let mut ri: usize = 0;
    while ri < ranges.len()
        invariant
            rs == ranges@,
            cap == node_cpus@.len(),
            cap == old(node_cpus)@.len(),
            node_cpus@.len() == old(node_cpus)@.len(),
            cpu_to_node@.len() == old(cpu_to_node)@.len(),
            c0 == *old(node_cpu_count),
            prefix0 == old(node_cpus)@.take(c0 as int),
            c0 <= *node_cpu_count <= cap,
            ri <= ranges@.len(),
            node_cpus@.take(*node_cpu_count as int) == cpus_upto(rs, ri as int, prefix0, cap as int),
            forall|k: int| *node_cpu_count <= k < cap ==> #[trigger] node_cpus@[k] == old(node_cpus)@[k],
            forall|c: int| 0 <= c < cpu_to_node@.len() ==> #[trigger] cpu_to_node@[c] == if exists|k: int|
                c0 <= k < *node_cpu_count && #[trigger] node_cpus@[k] == c {
                node_index
            } else {
                old(cpu_to_node)@[c]
            },
        decreases ranges@.len() - ri,
    {
        let (start, end) = ranges[ri];
        let ghost before = node_cpus@.take(*node_cpu_count as int);
        let ghost target = cpus_in(before, cap as int, start as int, end as int);
        let mut cpu = start;
        let mut done = start > end;
        while !done
            invariant
                cap == node_cpus@.len(),
                node_cpus@.len() == old(node_cpus)@.len(),
                cpu_to_node@.len() == old(cpu_to_node)@.len(),
                c0 <= *node_cpu_count <= cap,
                start <= cpu,
                !done ==> cpu <= end,
                done ==> node_cpus@.take(*node_cpu_count as int) == target,
                !done ==> cpus_in(node_cpus@.take(*node_cpu_count as int), cap as int, cpu as int, end as int) == target,
                forall|k: int| *node_cpu_count <= k < cap ==> #[trigger] node_cpus@[k] == old(node_cpus)@[k],
                forall|c: int| 0 <= c < cpu_to_node@.len() ==> #[trigger] cpu_to_node@[c] == if exists|k: int|
                    c0 <= k < *node_cpu_count && #[trigger] node_cpus@[k] == c {
                    node_index
                } else {
                    old(cpu_to_node)@[c]
                },
            decreases end - cpu, if done { 0int } else { 1int },
        {
            let ghost cur = node_cpus@.take(*node_cpu_count as int);
            if cpu >= MAX_CPUS {
                if cpu == end {
                    assert(cpus_in(cur, cap as int, cpu as int + 1, end as int) == cur);
                    done = true;
                } else {
                    cpu = cpu + 1;
                }
                continue;
            }
            if *node_cpu_count >= cap {
                done = true;
                continue;
            }
            let n = *node_cpu_count;
            let ghost old_nc = node_cpus@;
            let ghost old_map = cpu_to_node@;
            node_cpus.set(n, cpu);
            if cpu < cpu_to_node.len() {
                cpu_to_node.set(cpu, node_index);
            }
            *node_cpu_count = n + 1;
            proof {
                assert(node_cpus@.take(n as int + 1) =~= cur.push(cpu));
                assert forall|c: int| 0 <= c < cpu_to_node@.len() implies #[trigger] cpu_to_node@[c] == if exists|k: int|
                    c0 <= k < *node_cpu_count && #[trigger] node_cpus@[k] == c {
                    node_index
                } else {
                    old(cpu_to_node)@[c]
                } by {
                    if c == cpu {
                        assert(node_cpus@[n as int] == c);
                    } else {
                        if exists|k: int| c0 <= k < *node_cpu_count && #[trigger] node_cpus@[k] == c {
                            let k = choose|k: int| c0 <= k < *node_cpu_count && #[trigger] node_cpus@[k] == c;
                            assert(k != n);
                            assert(old_nc[k] == c);
                        }
                        if exists|k: int| c0 <= k < n && #[trigger] old_nc[k] == c {
                            let k = choose|k: int| c0 <= k < n && #[trigger] old_nc[k] == c;
                            assert(node_cpus@[k] == c);
                        }
                    }
                }
            }
            if cpu == end {
                assert(cpus_in(cur.push(cpu), cap as int, cpu as int + 1, end as int) == cur.push(cpu));
                done = true;
            } else {
                cpu = cpu + 1;
            }
        }
        proof {
            lemma_cpus_in_grows(before, cap as int, start as int, end as int);
            assert(cpus_upto(rs, ri as int + 1, prefix0, cap as int) == target);
        }
        ri = ri + 1;
    }
}

proof fn lemma_cpus_upto_grows(rs: Seq<(usize, usize)>, n: int, out0: Seq<usize>, cap: int)
    requires
        out0.len() <= cap,
    ensures
        out0.len() <= cpus_upto(rs, n, out0, cap).len() <= cap,
        cpus_upto(rs, n, out0, cap).take(out0.len() as int) == out0,
    decreases n,
{
    if n > 0 {
        lemma_cpus_upto_grows(rs, n - 1, out0, cap);
        let prev = cpus_upto(rs, n - 1, out0, cap);
        lemma_cpus_in_grows(prev, cap, rs[n - 1].0 as int, rs[n - 1].1 as int);
        let cur = cpus_upto(rs, n, out0, cap);
        assert(cur.take(out0.len() as int) =~= cur.take(prev.len() as int).take(out0.len() as int));
    }
}

/// Where the CPUs of node `n` end while `count` nodes are listed and
/// `total` CPUs recorded.
pub open spec fn node_end(offsets: Seq<usize>, n: int, count: int, total: int) -> int {
    if n + 1 < count { offsets[n + 1] as int } else { total }
}

/// CPU `c` is among entries `lo..hi` of `cpus`.
pub open spec fn lists_cpu(cpus: Seq<usize>, lo: int, hi: int, c: int) -> bool {
    exists|k: int| lo <= k < hi && #[trigger] cpus[k] == c
}

/// `map` gives each CPU below `MAX_CPUS` the last of the `count` nodes
/// (their CPUs in `cpus` from `offsets[n]` to `end(n)`) that lists it, and
/// `usize::MAX` to a CPU that no node lists.
pub open spec fn cpu_owners(map: Seq<usize>, cpus: Seq<usize>, offsets: Seq<usize>, count: int, total: int) -> bool {
    &&& forall|c: int| 0 <= c < MAX_CPUS ==> (#[trigger] map[c] == usize::MAX
        <==> forall|n: int| 0 <= n < count ==> !lists_cpu(cpus, offsets[n] as int, node_end(offsets, n, count, total), c))
    &&& forall|c: int| 0 <= c < MAX_CPUS && #[trigger] map[c] != usize::MAX ==> {
        &&& map[c] < count
        &&& lists_cpu(cpus, offsets[map[c] as int] as int, node_end(offsets, map[c] as int, count, total), c)
        &&& forall|n: int| map[c] < n < count ==> !lists_cpu(cpus, offsets[n] as int, node_end(offsets, n, count, total), c)
    }
}

/// The owners of CPUs depend only on where each node's CPUs lie.
proof fn lemma_owners_same(map: Seq<usize>, cpus: Seq<usize>, o1: Seq<usize>, o2: Seq<usize>, count: int, total: int)
    requires
        cpu_owners(map, cpus, o1, count, total),
        forall|n: int| 0 <= n < count ==> o1[n] == o2[n] && #[trigger] node_end(o1, n, count, total) == node_end(o2, n, count, total),
    ensures
        cpu_owners(map, cpus, o2, count, total),
{
    assert forall|n: int, c: int| 0 <= n < count implies #[trigger] lists_cpu(cpus, o2[n] as int, node_end(o2, n, count, total), c)
        == lists_cpu(cpus, o1[n] as int, node_end(o1, n, count, total), c) by {
        assert(node_end(o1, n, count, total) == node_end(o2, n, count, total));
    }
}

/// The contents that name CPUs, among the first `i` of `contents`, in order.
pub open spec fn present(contents: Seq<Option<Vec<u8>>>, i: int) -> Seq<Seq<u8>>
    decreases i,
{
    if i <= 0 {
        Seq::empty()
    } else {
        let p = present(contents, i - 1);
        match contents[i - 1] {
            Some(b) => if b@.len() > 0 { p.push(b@) } else { p },
            None => p,
        }
    }
}

/// The topology from the contents of the cpulist files of nodes
/// `0..max_nodes` (`None` where a file could not be read). Nodes are
/// numbered in the order of their files that name CPUs, and at most
/// `max_nodes` are kept. `None` when no file names a CPU.
pub fn build_numa_maps(max_nodes: usize, contents: &Vec<Option<Vec<u8>>>) -> (r: Option<NumaMaps>)
    requires
        contents@.len() == max_nodes,
        max_nodes < usize::MAX,
    ensures
        r is None <==> present(contents@, max_nodes as int).len() == 0,
        r matches Some(m) ==> {
            &&& m.wf()
            &&& m.node_count == present(contents@, max_nodes as int).len()
            &&& m.node_offsets@.len() == max_nodes + 1
            &&& m.node_offsets@[0] == 0
            &&& forall|n: int| 0 <= n < m.node_count ==> #[trigger] m.node_cpus@.take(m.node_offsets@[n + 1] as int)
                == cpus_upto(parse_ranges(present(contents@, max_nodes as int)[n], 0),
                    parse_ranges(present(contents@, max_nodes as int)[n], 0).len() as int,
                    m.node_cpus@.take(m.node_offsets@[n] as int), MAX_CPUS as int)
            &&& forall|c: int| 0 <= c < MAX_CPUS ==> #[trigger] m.cpu_to_node@[c] == usize::MAX || m.cpu_to_node@[c] < m.node_count
            &&& cpu_owners(m.cpu_to_node@, m.node_cpus@, m.node_offsets@, m.node_count as int, m.node_cpu_count as int)
        },
{
    let mut offsets: Vec<usize> = Vec::new();
    let mut k: usize = 0;
    while k <= max_nodes
        invariant
            max_nodes < usize::MAX,
            k <= max_nodes + 1,
            offsets@.len() == k,
            forall|j: int| 0 <= j < k ==> #[trigger] offsets@[j] == 0,
        decreases max_nodes + 1 - k,
    {
        offsets.push(0);
        k = k + 1;
    }
    let mut cpus: Vec<usize> = Vec::new();
    let mut cpu_map: Vec<usize> = Vec::new();
    let mut c: usize = 0;
    while c < MAX_CPUS
        invariant
            c <= MAX_CPUS,
            cpus@.len() == c,
            cpu_map@.len() == c,
            forall|j: int| 0 <= j < c ==> #[trigger] cpu_map@[j] == usize::MAX,
        decreases MAX_CPUS - c,
    {
        cpus.push(0);
        cpu_map.push(usize::MAX);
        c = c + 1;
    }
    let mut node_count: usize = 0;
    let mut node_cpu_count: usize = 0;
    let mut node: usize = 0;
    let ghost all = present(contents@, max_nodes as int);
    while node < max_nodes && node_count < max_nodes
        invariant
            node <= max_nodes,
            contents@.len() == max_nodes,
            offsets@.len() == max_nodes + 1,
            cpus@.len() == MAX_CPUS,
            cpu_map@.len() == MAX_CPUS,
            node_count == present(contents@, node as int).len(),
            node_count <= node,
            node_count <= max_nodes,
            node_count == 0 ==> node_cpu_count == 0,
            node_cpu_count <= MAX_CPUS,
            offsets@[0] == 0,
            forall|a: int, b: int| 0 <= a <= b < node_count ==> #[trigger] offsets@[a] <= #[trigger] offsets@[b],
            forall|a: int| 0 <= a < node_count ==> #[trigger] offsets@[a] <= node_cpu_count,
            forall|n: int| 0 <= n < node_count ==> node_end(offsets@, n, node_count as int, node_cpu_count as int) <= MAX_CPUS,
            forall|n: int| 0 <= n < node_count ==> #[trigger] cpus@.take(node_end(offsets@, n, node_count as int, node_cpu_count as int) as int)
                == cpus_upto(parse_ranges(present(contents@, node as int)[n], 0),
                    parse_ranges(present(contents@, node as int)[n], 0).len() as int,
                    cpus@.take(offsets@[n] as int), MAX_CPUS as int),
            forall|j: int| 0 <= j < MAX_CPUS ==> #[trigger] cpu_map@[j] == usize::MAX || cpu_map@[j] < node_count,
            cpu_owners(cpu_map@, cpus@, offsets@, node_count as int, node_cpu_count as int),
        decreases max_nodes - node,
    {
        let ghost p_before = present(contents@, node as int);
        match &contents[node] {
            None => {},
            Some(bytes) => {
                if bytes.len() > 0 {
                    let ghost cpus0 = cpus@;
                    let ghost map0 = cpu_map@;
                    let ghost off0 = offsets@;
                    let ghost c_before = node_cpu_count;
                    offsets.set(node_count, node_cpu_count);
                    parse_cpulist_bytes(bytes, node_count, &mut cpus, &mut cpu_map, &mut node_cpu_count);
                    proof {
                        let rs = parse_ranges(bytes@, 0);
                        lemma_cpus_upto_grows(rs, rs.len() as int, cpus0.take(c_before as int), MAX_CPUS as int);
                        assert(cpus@.take(c_before as int) =~= cpus@.take(node_cpu_count as int).take(c_before as int));
                        assert(cpus@.take(c_before as int) == cpus0.take(c_before as int));
                        assert(present(contents@, node as int + 1) == p_before.push(bytes@));
                        assert forall|n: int| 0 <= n < node_count + 1 implies #[trigger] cpus@.take(node_end(offsets@, n, node_count as int + 1, node_cpu_count as int) as int)
                            == cpus_upto(parse_ranges(present(contents@, node as int + 1)[n], 0),
                                parse_ranges(present(contents@, node as int + 1)[n], 0).len() as int,
                                cpus@.take(offsets@[n] as int), MAX_CPUS as int) by {
                            if n < node_count {
                                let hi = node_end(off0, n, node_count as int, c_before as int);
                                assert(node_end(offsets@, n, node_count as int + 1, node_cpu_count as int) == hi);
                                assert(offsets@[n] == off0[n]);
                                assert(off0[n] <= hi <= c_before);
                                assert(present(contents@, node as int + 1)[n] == p_before[n]);
                                assert(cpus@.take(hi) =~= cpus@.take(c_before as int).take(hi));
                                assert(cpus0.take(hi) =~= cpus0.take(c_before as int).take(hi));
                                assert(cpus@.take(off0[n] as int) =~= cpus@.take(c_before as int).take(off0[n] as int));
                                assert(cpus0.take(off0[n] as int) =~= cpus0.take(c_before as int).take(off0[n] as int));
                            } else {
                                assert(present(contents@, node as int + 1)[n] == bytes@);
                                assert(offsets@[n] == c_before);
                            }
                        }
                        assert forall|j: int| 0 <= j < MAX_CPUS implies #[trigger] cpu_map@[j] == usize::MAX || cpu_map@[j] < node_count + 1 by {
                            assert(map0[j] == usize::MAX || map0[j] < node_count);
                        }
                        let nc = node_count as int;
                        let tot = node_cpu_count as int;
                        assert forall|n: int, c: int| 0 <= n < nc implies
                            #[trigger] lists_cpu(cpus@, offsets@[n] as int, node_end(offsets@, n, nc + 1, tot), c)
                                == lists_cpu(cpus0, off0[n] as int, node_end(off0, n, nc, c_before as int), c) by {
                            let hi = node_end(off0, n, nc, c_before as int);
                            assert(node_end(offsets@, n, nc + 1, tot) == hi);
                            assert(offsets@[n] == off0[n]);
                            assert(off0[n] <= hi <= c_before);
                            assert forall|k: int| 0 <= k < c_before implies #[trigger] cpus@[k] == cpus0[k] by {
                                assert(cpus@.take(c_before as int)[k] == cpus0.take(c_before as int)[k]);
                            }
                            if lists_cpu(cpus@, offsets@[n] as int, hi, c) {
                                let k = choose|k: int| offsets@[n] <= k < hi && #[trigger] cpus@[k] == c;
                                assert(cpus0[k] == c);
                            }
                            if lists_cpu(cpus0, off0[n] as int, hi, c) {
                                let k = choose|k: int| off0[n] <= k < hi && #[trigger] cpus0[k] == c;
                                assert(cpus@[k] == c);
                            }
                        }
                        assert(node_end(offsets@, nc, nc + 1, tot) == tot);
                        assert(offsets@[nc] == c_before);
                        assert forall|c: int| 0 <= c < MAX_CPUS implies
                            (#[trigger] cpu_map@[c] == usize::MAX <==> forall|n: int| 0 <= n < nc + 1 ==> !lists_cpu(cpus@, offsets@[n] as int, node_end(offsets@, n, nc + 1, tot), c)) by {
                            if lists_cpu(cpus@, c_before as int, tot, c) {
                                let k = choose|k: int| c_before <= k < tot && #[trigger] cpus@[k] == c;
                                assert(cpu_map@[c] == nc);
                            } else {
                                assert(cpu_map@[c] == map0[c]);
                                if map0[c] == usize::MAX {
                                    assert forall|n: int| 0 <= n < nc + 1 implies !lists_cpu(cpus@, offsets@[n] as int, node_end(offsets@, n, nc + 1, tot), c) by {
                                        if n < nc {
                                            assert(lists_cpu(cpus@, offsets@[n] as int, node_end(offsets@, n, nc + 1, tot), c)
                                                == lists_cpu(cpus0, off0[n] as int, node_end(off0, n, nc, c_before as int), c));
                                        }
                                    }
                                } else {
                                    let n = map0[c] as int;
                                    assert(lists_cpu(cpus@, offsets@[n] as int, node_end(offsets@, n, nc + 1, tot), c)
                                        == lists_cpu(cpus0, off0[n] as int, node_end(off0, n, nc, c_before as int), c));
                                }
                            }
                        }
                        assert forall|c: int| 0 <= c < MAX_CPUS && #[trigger] cpu_map@[c] != usize::MAX implies {
                            &&& cpu_map@[c] < nc + 1
                            &&& lists_cpu(cpus@, offsets@[cpu_map@[c] as int] as int, node_end(offsets@, cpu_map@[c] as int, nc + 1, tot), c)
                            &&& forall|n: int| cpu_map@[c] < n < nc + 1 ==> !lists_cpu(cpus@, offsets@[n] as int, node_end(offsets@, n, nc + 1, tot), c)
                        } by {
                            if lists_cpu(cpus@, c_before as int, tot, c) {
                                let k = choose|k: int| c_before <= k < tot && #[trigger] cpus@[k] == c;
                                assert(cpu_map@[c] == nc);
                            } else {
                                assert(cpu_map@[c] == map0[c]);
                                let o = map0[c] as int;
                                assert(lists_cpu(cpus@, offsets@[o] as int, node_end(offsets@, o, nc + 1, tot), c)
                                    == lists_cpu(cpus0, off0[o] as int, node_end(off0, o, nc, c_before as int), c));
                                assert forall|n: int| o < n < nc + 1 implies !lists_cpu(cpus@, offsets@[n] as int, node_end(offsets@, n, nc + 1, tot), c) by {
                                    if n < nc {
                                        assert(lists_cpu(cpus@, offsets@[n] as int, node_end(offsets@, n, nc + 1, tot), c)
                                            == lists_cpu(cpus0, off0[n] as int, node_end(off0, n, nc, c_before as int), c));
                                    }
                                }
                            }
                        }
                        assert forall|a: int, b: int| 0 <= a <= b < node_count + 1 implies #[trigger] offsets@[a] <= #[trigger] offsets@[b] by {
                            if b < node_count {
                                assert(off0[a] <= off0[b]);
                            } else {
                                assert(off0[a] <= c_before || a == node_count);
                            }
                        }
                    }
                    node_count = node_count + 1;
                }
            },
        }
        node = node + 1;
    }
    if node_count == 0 {
        return None;
    }
    let ghost off_pre = offsets@;
    offsets.set(node_count, node_cpu_count);
    proof {
        assert(node == max_nodes);
        assert forall|n: int| 0 <= n < node_count implies #[trigger] cpus@.take(offsets@[n + 1] as int)
            == cpus_upto(parse_ranges(present(contents@, max_nodes as int)[n], 0),
                parse_ranges(present(contents@, max_nodes as int)[n], 0).len() as int,
                cpus@.take(offsets@[n] as int), MAX_CPUS as int) by {
            assert(node_end(off_pre, n, node_count as int, node_cpu_count as int) == offsets@[n + 1]);
            assert(offsets@[n] == off_pre[n]);
        }
        assert forall|n: int| 0 <= n < node_count implies off_pre[n] == offsets@[n]
            && #[trigger] node_end(off_pre, n, node_count as int, node_cpu_count as int) == node_end(offsets@, n, node_count as int, node_cpu_count as int) by {
        }
        lemma_owners_same(cpu_map@, cpus@, off_pre, offsets@, node_count as int, node_cpu_count as int);
    }
    Some(NumaMaps { node_offsets: offsets, node_cpus: cpus, cpu_to_node: cpu_map, node_count, node_cpu_count })
}


/// Capacity of the buffer a node's cpulist path is written to.
pub const MAX_NODE_PATH: usize = 128;

/// `/sys/devices/system/node/node`, the start of a node's cpulist path.
pub const NODE_PREFIX: [u8; 29] = [47, 115, 121, 115, 47, 100, 101, 118, 105, 99, 101, 115, 47, 115, 121, 115, 116, 101, 109, 47, 110, 111, 100, 101, 47, 110, 111, 100, 101];

/// `/cpulist`, the end of a node's cpulist path.
pub const CPULIST_SUFFIX: [u8; 8] = [47, 99, 112, 117, 108, 105, 115, 116];

/// The decimal digits of `n`, in ASCII.
pub open spec fn decimal(n: nat) -> Seq<u8>
    decreases n,
{
    if n < 10 {
        seq![(48 + n) as u8]
    } else {
        decimal(n / 10).push((48 + n % 10) as u8)
    }
}

/// The path of the cpulist file of `node`.
pub open spec fn node_path(node: nat) -> Seq<u8> {
    NODE_PREFIX@ + decimal(node) + CPULIST_SUFFIX@
}

fn push_decimal(out: &mut Vec<u8>, n: usize)
    ensures
        final(out)@ == old(out)@ + decimal(n as nat),
    decreases n,
{
    if n >= 10 {
        push_decimal(out, n / 10);
    }
    let d = (n % 10) as u8;
    out.push(48 + d);
    proof {
        if n >= 10 {
            assert(decimal(n as nat) == decimal((n / 10) as nat).push((48 + n % 10) as u8));
        }
    }
    assert(out@ =~= old(out)@ + decimal(n as nat));
}

/// Writes the cpulist path of `node` to `buf`, followed by a zero byte,
/// and returns its length; `None` when it does not fit.
pub fn write_node_path(buf: &mut Vec<u8>, node: usize) -> (r: Option<usize>)
    requires
        old(buf)@.len() == MAX_NODE_PATH,
    ensures
        final(buf)@.len() == MAX_NODE_PATH,
        node_path(node as nat).len() + 1 <= MAX_NODE_PATH ==> {
            &&& r == Some(node_path(node as nat).len() as usize)
            &&& final(buf)@.take(node_path(node as nat).len() as int) == node_path(node as nat)
            &&& final(buf)@[node_path(node as nat).len() as int] == 0
        },
        node_path(node as nat).len() + 1 > MAX_NODE_PATH ==> r is None,
{
    let mut path: Vec<u8> = Vec::new();
    let mut i: usize = 0;
    while i < 29
        invariant
            i <= 29,
            path@ == NODE_PREFIX@.take(i as int),
        decreases 29 - i,
    {
        path.push(NODE_PREFIX[i]);
        i = i + 1;
        assert(path@ =~= NODE_PREFIX@.take(i as int));
    }
    assert(NODE_PREFIX@.take(29) =~= NODE_PREFIX@);
    push_decimal(&mut path, node);
    let mut j: usize = 0;
    let ghost mid = path@;
    while j < 8
        invariant
            j <= 8,
            path@ == mid + CPULIST_SUFFIX@.take(j as int),
        decreases 8 - j,
    {
        path.push(CPULIST_SUFFIX[j]);
        j = j + 1;
        assert(path@ =~= mid + CPULIST_SUFFIX@.take(j as int));
    }
    assert(CPULIST_SUFFIX@.take(8) =~= CPULIST_SUFFIX@);
    assert(path@ =~= node_path(node as nat));
    let len = path.len();
    if len >= buf.len() {
        return None;
    }
    let mut k: usize = 0;
    while k < len
        invariant
            k <= len,
            len == path@.len(),
            len + 1 <= buf@.len(),
            buf@.len() == MAX_NODE_PATH,
            buf@.take(k as int) == path@.take(k as int),
        decreases len - k,
    {
        buf.set(k, path[k]);
        k = k + 1;
        assert(buf@.take(k as int) =~= path@.take(k as int));
    }
    let ghost b1 = buf@;
    buf.set(len, 0);
    assert(buf@.take(len as int) =~= b1.take(len as int));
    assert(path@.take(len as int) =~= path@);
    Some(len)
}

/// The topology of at most `max_nodes` nodes, from the contents of their
/// cpulist files; see `build_numa_maps`.
pub fn get_numa_maps(max_nodes: usize, contents: &Vec<Option<Vec<u8>>>) -> (r: Option<NumaMaps>)
    requires
        contents@.len() == max_nodes,
        max_nodes < usize::MAX,
    ensures
        r is None <==> present(contents@, max_nodes as int).len() == 0,
        r matches Some(m) ==> {
            &&& m.wf()
            &&& m.node_count == present(contents@, max_nodes as int).len()
            &&& m.node_offsets@.len() == max_nodes + 1
            &&& m.node_offsets@[0] == 0
            &&& forall|n: int| 0 <= n < m.node_count ==> #[trigger] m.node_cpus@.take(m.node_offsets@[n + 1] as int)
                == cpus_upto(parse_ranges(present(contents@, max_nodes as int)[n], 0),
                    parse_ranges(present(contents@, max_nodes as int)[n], 0).len() as int,
                    m.node_cpus@.take(m.node_offsets@[n] as int), MAX_CPUS as int)
            &&& forall|c: int| 0 <= c < MAX_CPUS ==> #[trigger] m.cpu_to_node@[c] == usize::MAX || m.cpu_to_node@[c] < m.node_count
            &&& cpu_owners(m.cpu_to_node@, m.node_cpus@, m.node_offsets@, m.node_count as int, m.node_cpu_count as int)
        },
{
    build_numa_maps(max_nodes, contents)
}

} // verus!
