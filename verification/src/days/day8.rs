//! Networks of nodes: how many steps a list of left and right turns needs to
//! lead from one node to another.

use crate::outside::{captures, group_views, lcm_of_all, lcmx_of, lcmx_runs, regex_groups};
use crate::text::{same_chars, slice_of, to_chars, to_text};
use vstd::prelude::*;

verus! {

/// A node of the network: its name and the names of the nodes to its left
/// and to its right.
#[derive(Debug, PartialEq, Eq)]
pub struct Node {
    pub name: String,
    pub instruction: (String, String),
}

/// The most steps that a walk is followed for.
pub open spec fn step_limit() -> nat {
    30_001
}

/// What a line says of a node, given the groups that the pattern of a node
/// line captured in it: its name, its left and its right neighbour.
pub open spec fn node_of(groups: Option<Seq<Option<Seq<char>>>>) -> Option<
    (Seq<char>, Seq<char>, Seq<char>),
> {
    match groups {
        Some(g) => if g.len() == 4 && g[1] is Some && g[2] is Some && g[3] is Some {
            Some((g[1]->0, g[2]->0, g[3]->0))
        } else {
            None
        },
        None => None,
    }
}

impl Node {
    /// The name of the node with the names of its left and right
    /// neighbours.
    pub open spec fn view(&self) -> (Seq<char>, Seq<char>, Seq<char>) {
        (self.name@, self.instruction.0@, self.instruction.1@)
    }

    /// Builds a node from the groups that the pattern of a node line
    /// captured.
    pub fn from_groups(groups: &Vec<Option<Vec<char>>>) -> (out: Option<Node>)
        ensures
            out is Some <==> node_of(Some(group_views(groups@))) is Some,
            out matches Some(node) ==> node_of(Some(group_views(groups@))) == Some(node.view()),
    {
        if groups.len() != 4 {
            return None;
        }
        proof {
            assert(group_views(groups@)[1] == match groups@[1] {
                Some(c) => Some(c@),
                None => None,
            });
            assert(group_views(groups@)[2] == match groups@[2] {
                Some(c) => Some(c@),
                None => None,
            });
            assert(group_views(groups@)[3] == match groups@[3] {
                Some(c) => Some(c@),
                None => None,
            });
        }
        match (&groups[1], &groups[2], &groups[3]) {
            (Some(name), Some(left), Some(right)) => Some(
                Node { name: to_text(name), instruction: (to_text(left), to_text(right)) },
            ),
            _ => None,
        }
    }

    /// Reads a line such as `AAA = (BBB, CCC)`.
    pub fn parse(line: &str) -> (out: Option<Node>)
        ensures
            out is Some <==> node_of(
                regex_groups("(\\w+) = \\((\\w+), (\\w+)\\)"@, line@),
            ) is Some,
            out matches Some(node) ==> node_of(
                regex_groups("(\\w+) = \\((\\w+), (\\w+)\\)"@, line@),
            ) == Some(node.view()),
    {
        match captures("(\\w+) = \\((\\w+), (\\w+)\\)", line) {
            Some(groups) => Node::from_groups(&groups),
            None => None,
        }
    }
}

/// The views of a list of nodes.
pub open spec fn node_views(nodes: Seq<Node>) -> Seq<(Seq<char>, Seq<char>, Seq<char>)> {
    nodes.map_values(|n: Node| n.view())
}

/// The index of the first of the first `n` nodes that is called `name`.
pub open spec fn node_named(
    nodes: Seq<(Seq<char>, Seq<char>, Seq<char>)>,
    name: Seq<char>,
    n: int,
) -> Option<int>
    decreases n,
{
    if n <= 0 {
        None
    } else {
        match node_named(nodes, name, n - 1) {
            Some(i) => Some(i),
            None => if nodes[n - 1].0 == name {
                Some(n - 1)
            } else {
                None
            },
        }
    }
}

/// What `node_named` finds lies among the first `n` nodes, and once a node
/// is found no later node changes what is found.
pub proof fn lemma_node_named(
    nodes: Seq<(Seq<char>, Seq<char>, Seq<char>)>,
    name: Seq<char>,
    n: int,
    m: int,
)
    requires
        0 <= n <= m,
    ensures
        node_named(nodes, name, n) matches Some(i) ==> 0 <= i < n && node_named(nodes, name, m)
            == Some(i),
    decreases m,
{
    if n < m {
        lemma_node_named(nodes, name, n, m - 1);
    } else if n > 0 {
        lemma_node_named(nodes, name, n - 1, n - 1);
    }
}

/// Whether `instructions` is a route: not empty, and made of `'L'` and
/// `'R'` only.
pub open spec fn is_route(instructions: Seq<char>) -> bool {
    instructions.len() > 0 && forall|i: int|
        0 <= i < instructions.len() ==> instructions[i] == 'L' || instructions[i] == 'R'
}

/// The name of the node that `k` steps from `start` lead to, where step
/// `k` follows instruction `k`, the instructions being repeated without
/// end; `None` once a step starts from a name that no node has.
pub open spec fn name_after(
    nodes: Seq<(Seq<char>, Seq<char>, Seq<char>)>,
    instructions: Seq<char>,
    start: Seq<char>,
    k: nat,
) -> Option<Seq<char>>
    decreases k,
{
    if k == 0 {
        Some(start)
    } else {
        match name_after(nodes, instructions, start, (k - 1) as nat) {
            Some(name) => match node_named(nodes, name, nodes.len() as int) {
                Some(i) => if instructions[(k - 1) % (instructions.len() as int)] == 'L' {
                    Some(nodes[i].1)
                } else {
                    Some(nodes[i].2)
                },
                None => None,
            },
            None => None,
        }
    }
}

/// Whether `count` steps are the fewest, one at least and `step_limit` at
/// most, that lead from `start` to `end`.
pub open spec fn arrives_first(
    nodes: Seq<(Seq<char>, Seq<char>, Seq<char>)>,
    instructions: Seq<char>,
    start: Seq<char>,
    end: Seq<char>,
    count: nat,
) -> bool {
    &&& 1 <= count <= step_limit()
    &&& name_after(nodes, instructions, start, count) == Some(end)
    &&& forall|k: nat|
        1 <= k < count ==> #[trigger] name_after(nodes, instructions, start, k) != Some(end)
}

/// The fewest steps, `step_limit` at most, that lead from `start` to `end`,
/// if there are any.
pub open spec fn fewest(
    nodes: Seq<(Seq<char>, Seq<char>, Seq<char>)>,
    instructions: Seq<char>,
    start: Seq<char>,
    end: Seq<char>,
) -> Option<nat> {
    if exists|c: nat| #[trigger] arrives_first(nodes, instructions, start, end, c) {
        Some(choose|c: nat| #[trigger] arrives_first(nodes, instructions, start, end, c))
    } else {
        None
    }
}

/// Whether `instructions` is a route.
pub fn check_route(instructions: &Vec<char>) -> (ok: bool)
    ensures
        ok == is_route(instructions@),
{
    if instructions.len() == 0 {
        return false;
    }
    let mut k: usize = 0;
    while k < instructions.len()
        invariant
            k <= instructions@.len(),
            forall|i: int| 0 <= i < k ==> instructions@[i] == 'L' || instructions@[i] == 'R',
        decreases instructions@.len() - k,
    {
        if instructions[k] != 'L' && instructions[k] != 'R' {
            return false;
        }
        k += 1;
    }
    true
}

/// The index of the first node that is called `name`.
pub fn find_node(nodes: &Vec<Node>, name: &Vec<char>) -> (out: Option<usize>)
    ensures
        out is Some <==> node_named(node_views(nodes@), name@, nodes@.len() as int) is Some,
        out matches Some(i) ==> node_named(node_views(nodes@), name@, nodes@.len() as int)
            == Some(i as int) && i < nodes@.len(),
{
    let ghost list = node_views(nodes@);
    let mut k: usize = 0;
    while k < nodes.len()
        invariant
            k <= nodes@.len(),
            list == node_views(nodes@),
            node_named(list, name@, k as int) is None,
        decreases nodes@.len() - k,
    {
        let here = to_chars(nodes[k].name.as_str());
        proof {
            assert(list[k as int] == nodes@[k as int].view());
        }
        if same_chars(&here, name) {
            proof {
                assert(node_named(list, name@, k + 1) == Some(k as int));
                lemma_node_named(list, name@, k + 1, nodes@.len() as int);
            }
            return Some(k);
        }
        k += 1;
    }
    None
}

/// The number of steps that lead from `start` to `end` for the first time,
/// if at most `step_limit` steps do; `None` otherwise, and when a step
/// starts from a name that no node has.
pub fn get_count(instructions: &str, nodes: &Vec<Node>, start: &str, end: &str) -> (out:
    Option<u64>)
    requires
        is_route(instructions@),
    ensures
        out matches Some(count) ==> arrives_first(
            node_views(nodes@),
            instructions@,
            start@,
            end@,
            count as nat,
        ),
        out is None ==> forall|count: nat|
            !arrives_first(node_views(nodes@), instructions@, start@, end@, count),
{
    let route = to_chars(instructions);
    let goal = to_chars(end);
    let mut name = to_chars(start);
    let ghost list = node_views(nodes@);
    let mut count: u64 = 0;
    let mut at: usize = 0;
    loop
        invariant
            is_route(route@),
            route@ == instructions@,
            goal@ == end@,
            list == node_views(nodes@),
            count <= 30_000,
            at < route@.len(),
            at as int == (count as int) % (route@.len() as int),
            name_after(list, route@, start@, count as nat) == Some(name@),
            forall|k: nat|
                1 <= k <= count ==> #[trigger] name_after(list, route@, start@, k) != Some(end@),
        decreases step_limit() - count,
    {
        let found = find_node(nodes, &name);
        let i = match found {
            Some(i) => i,
            None => {
                proof {
                    assert forall|c: nat| !arrives_first(list, route@, start@, end@, c) by {
                        if arrives_first(list, route@, start@, end@, c) {
                            lemma_lost_stays_lost(list, route@, start@, (count + 1) as nat, c);
                        }
                    }
                }
                return None;
            },
        };
        proof {
            assert(list[i as int] == nodes@[i as int].view());
        }
        let turn = route[at];
        let next = if turn == 'L' {
            to_chars(nodes[i].instruction.0.as_str())
        } else {
            to_chars(nodes[i].instruction.1.as_str())
        };
        proof {
            assert(name_after(list, route@, start@, (count + 1) as nat) == Some(next@));
        }
        name = next;
        count += 1;
        assert(at < route.len());
        at = if at + 1 == route.len() {
            0
        } else {
            at + 1
        };
        proof {
            lemma_next_place(count as int - 1, route@.len() as int);
        }
        if same_chars(&name, &goal) {
            return Some(count);
        }
        if count > 30_000 {
            proof {
                assert forall|c: nat| !arrives_first(list, route@, start@, end@, c) by {}
            }
            return None;
        }
    }
}

/// The place in a repeated list moves on by one, or back to the start.
proof fn lemma_next_place(k: int, len: int)
    requires
        0 <= k,
        0 < len,
    ensures
        (k + 1) % len == if k % len + 1 == len {
            0
        } else {
            k % len + 1
        },
{
    vstd::arithmetic::div_mod::lemma_fundamental_div_mod(k, len);
    vstd::arithmetic::div_mod::lemma_mod_pos_bound(k, len);
    let q = k / len;
    let r = k % len;
    assert(k == q * len + r) by (nonlinear_arith)
        requires
            k == len * q + r,
    ;
    if r + 1 == len {
        assert(k + 1 == (q + 1) * len + 0) by (nonlinear_arith)
            requires
                k == q * len + r,
                r + 1 == len,
        ;
        vstd::arithmetic::div_mod::lemma_fundamental_div_mod_converse(k + 1, len, q + 1, 0);
    } else {
        vstd::arithmetic::div_mod::lemma_fundamental_div_mod_converse(k + 1, len, q, r + 1);
    }
}

/// Once a walk has lost its way it does not find it again.
proof fn lemma_lost_stays_lost(
    nodes: Seq<(Seq<char>, Seq<char>, Seq<char>)>,
    instructions: Seq<char>,
    start: Seq<char>,
    k: nat,
    m: nat,
)
    requires
        name_after(nodes, instructions, start, k) is None,
        k <= m,
    ensures
        name_after(nodes, instructions, start, m) is None,
    decreases m,
{
    if k < m {
        lemma_lost_stays_lost(nodes, instructions, start, k, (m - 1) as nat);
    }
}

/// Whether `name` ends with `suffix`.
pub open spec fn ends_with(name: Seq<char>, suffix: Seq<char>) -> bool {
    suffix.len() <= name.len() && name.subrange(name.len() - suffix.len(), name.len() as int)
        == suffix
}

/// The names of those of the first `n` nodes whose names end with `suffix`.
pub open spec fn names_ending(
    nodes: Seq<(Seq<char>, Seq<char>, Seq<char>)>,
    suffix: Seq<char>,
    n: int,
) -> Seq<Seq<char>>
    decreases n,
{
    if n <= 0 {
        Seq::empty()
    } else if ends_with(nodes[n - 1].0, suffix) {
        names_ending(nodes, suffix, n - 1).push(nodes[n - 1].0)
    } else {
        names_ending(nodes, suffix, n - 1)
    }
}

/// The views of a list of texts.
pub open spec fn text_views(texts: Seq<String>) -> Seq<Seq<char>> {
    texts.map_values(|t: String| t@)
}

/// The names of the nodes whose names end with `value`, in the order of the
/// nodes.
pub fn nodes_ending_with(nodes: &Vec<Node>, value: &str) -> (out: Vec<String>)
    ensures
        text_views(out@) == names_ending(node_views(nodes@), value@, nodes@.len() as int),
{
    let suffix = to_chars(value);
    let ghost list = node_views(nodes@);
    let mut out: Vec<String> = Vec::new();
    let mut k: usize = 0;
    while k < nodes.len()
        invariant
            k <= nodes@.len(),
            suffix@ == value@,
            list == node_views(nodes@),
            text_views(out@) == names_ending(list, value@, k as int),
        decreases nodes@.len() - k,
    {
        let name = to_chars(nodes[k].name.as_str());
        let ghost before = text_views(out@);
        proof {
            assert(list[k as int] == nodes@[k as int].view());
        }
        if suffix.len() <= name.len() {
            let tail = slice_of(&name, name.len() - suffix.len(), name.len());
            if same_chars(&tail, &suffix) {
                let text = to_text(&name);
                out.push(text);
                proof {
                    assert(text_views(out@) =~= before.push(name@));
                }
            }
        }
        k += 1;
    }
    out
}

/// The least common multiple of `values` as `lcmx` computes it, or `None`
/// when `lcmx` would divide by zero or leave `u64` on the way.
pub fn lcm_checked(values: &Vec<u64>) -> (out: Option<u64>)
    ensures
        out == if lcmx_runs(values@) {
            lcmx_of(values@)
        } else {
            None
        },
{
    let mut prefix: Vec<u64> = Vec::new();
    let mut k: usize = 0;
    while k < values.len()
        invariant
            k <= values@.len(),
            prefix@ == values@.take(k as int),
            lcmx_runs(prefix@),
        decreases values@.len() - k,
    {
        let v = values[k];
        if k >= 1 {
            let so_far = lcm_of_all(&prefix);
            let fits = match so_far {
                Some(m) => v != 0 && m.checked_mul(v).is_some(),
                None => false,
            };
            if !fits {
                proof {
                    assert(values@[k as int] == v);
                    assert(!lcmx_runs(values@));
                }
                return None;
            }
        }
        let ghost before = prefix@;
        prefix.push(v);
        proof {
            assert(prefix@ =~= values@.take(k + 1));
            assert forall|i: int| 1 <= i < prefix@.len() implies (#[trigger] prefix@[i]) != 0
                && lcmx_of(prefix@.take(i)) is Some && lcmx_of(prefix@.take(i))->0 * prefix@[i]
                <= u64::MAX by {
                assert(prefix@.take(i) =~= values@.take(i));
                if i < k {
                    assert(before.take(i) =~= values@.take(i));
                    assert(before[i] != 0);
                } else {
                    assert(before =~= values@.take(i));
                }
            }
        }
        k += 1;
    }
    proof {
        assert(values@.take(k as int) =~= values@);
    }
    lcm_of_all(&prefix)
}

/// The step counts from each of the first `s` of `starts`, and for start
/// `s` to the first `e` of `ends`, to each end in turn, where a count
/// exists.
pub open spec fn counts_upto(
    nodes: Seq<(Seq<char>, Seq<char>, Seq<char>)>,
    instructions: Seq<char>,
    starts: Seq<Seq<char>>,
    ends: Seq<Seq<char>>,
    s: int,
    e: int,
) -> Seq<u64>
    decreases s, e,
{
    if s < 0 || e < 0 || (s == 0 && e == 0) {
        Seq::empty()
    } else if e == 0 {
        counts_upto(nodes, instructions, starts, ends, s - 1, ends.len() as int)
    } else {
        let before = counts_upto(nodes, instructions, starts, ends, s, e - 1);
        match fewest(nodes, instructions, starts[s], ends[e - 1]) {
            Some(c) => before.push(c as u64),
            None => before,
        }
    }
}

/// The fewest steps are unique.
pub proof fn lemma_arrival_unique(
    nodes: Seq<(Seq<char>, Seq<char>, Seq<char>)>,
    instructions: Seq<char>,
    start: Seq<char>,
    end: Seq<char>,
    a: nat,
    b: nat,
)
    requires
        arrives_first(nodes, instructions, start, end, a),
        arrives_first(nodes, instructions, start, end, b),
    ensures
        a == b,
{
    if a < b {
        assert(name_after(nodes, instructions, start, a) != Some(end));
    } else if b < a {
        assert(name_after(nodes, instructions, start, b) != Some(end));
    }
}

/// The number of steps after which walks from all nodes whose names end
/// with `'A'` stand on nodes whose names end with `'Z'`: the least common
/// multiple of the step counts from every such start to every such end that
/// it reaches.
///
/// Returns `None` when there is no count at all, or `lcmx` cannot run on
/// the counts.
pub fn part2(instructions: &str, nodes: &Vec<Node>) -> (out: Option<u64>)
    requires
        is_route(instructions@),
    ensures
        ({
            let list = node_views(nodes@);
            let starts = names_ending(list, "A"@, list.len() as int);
            let ends = names_ending(list, "Z"@, list.len() as int);
            let counts = counts_upto(
                list,
                instructions@,
                starts,
                ends,
                starts.len() as int - 1,
                ends.len() as int,
            );
            out == if lcmx_runs(counts) {
                lcmx_of(counts)
            } else {
                None
            }
        }),
{
    let starts = nodes_ending_with(nodes, "A");
    let ends = nodes_ending_with(nodes, "Z");
    let ghost list = node_views(nodes@);
    let ghost from = text_views(starts@);
    let ghost to = text_views(ends@);
    let mut counts: Vec<u64> = Vec::new();
    let mut s: usize = 0;
    proof {
        assert(from.len() == starts@.len());
        assert(to.len() == ends@.len());
    }
    while s < starts.len()
        invariant
            s <= starts@.len(),
            is_route(instructions@),
            list == node_views(nodes@),
            from == text_views(starts@),
            to == text_views(ends@),
            from.len() == starts@.len(),
            to.len() == ends@.len(),
            counts@ == counts_upto(list, instructions@, from, to, s as int - 1, to.len() as int),
        decreases starts@.len() - s,
    {
        let mut e: usize = 0;
        proof {
            assert(counts_upto(list, instructions@, from, to, s as int, 0) == counts@);
        }
        while e < ends.len()
            invariant
                e <= ends@.len(),
                s < starts@.len(),
                is_route(instructions@),
                list == node_views(nodes@),
                from == text_views(starts@),
                to == text_views(ends@),
                from.len() == starts@.len(),
                to.len() == ends@.len(),
                counts@ == counts_upto(list, instructions@, from, to, s as int, e as int),
            decreases ends@.len() - e,
        {
            proof {
                assert(from[s as int] == starts@[s as int]@);
                assert(to[e as int] == ends@[e as int]@);
            }
            match get_count(instructions, nodes, starts[s].as_str(), ends[e].as_str()) {
                Some(c) => {
                    proof {
                        let chosen = choose|c: nat| #[trigger]
                            arrives_first(list, instructions@, from[s as int], to[e as int], c);
                        lemma_arrival_unique(
                            list,
                            instructions@,
                            from[s as int],
                            to[e as int],
                            c as nat,
                            chosen,
                        );
                    }
                    counts.push(c);
                },
                None => {},
            }
            e += 1;
        }
        s += 1;
    }
    lcm_checked(&counts)
}

} // verus!
