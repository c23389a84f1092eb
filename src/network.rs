use vstd::prelude::*;

verus! {

/// The left/right instructions, as the bytes of their line.
#[derive(Debug)]
pub struct Instructions(pub Vec<u8>);

/// A node of the map and the nodes its left and right roads lead to.
#[derive(Debug, Clone, Copy)]
pub struct Node {
    pub id: [char; 3],
    pub left: [char; 3],
    pub right: [char; 3],
}

/// Why the map could not be walked.
#[derive(Debug, Clone, Copy, PartialEq, Eq, Structural)]
pub enum WalkError {
    /// No node is called `AAA`.
    NoStart,
    /// A road leads to a node that is not on the map.
    MissingNode,
    /// An instruction is neither `L` nor `R`.
    UnknownInstruction,
    /// `ZZZ` is not reached at the end of a round within the rounds tried.
    NotReached,
    /// The number of steps leaves `i64`.
    TooManySteps,
}

/// A line ending at `i`: the position after it.
pub open spec fn line_ending_at(s: Seq<u8>, i: int) -> Option<int> {
    if 0 <= i < s.len() && s[i] == 10 {
        Some(i + 1)
    } else if 0 <= i && i + 1 < s.len() && s[i] == 13 && s[i + 1] == 10 {
        Some(i + 2)
    } else {
        None
    }
}

pub open spec fn chars3(s: Seq<u8>, i: int) -> Seq<char> {
    seq![s[i] as char, s[i + 1] as char, s[i + 2] as char]
}

/// `w` stands in `s` at `i`.
pub open spec fn literal_at(s: Seq<u8>, i: int, w: Seq<u8>) -> bool {
    0 <= i && i + w.len() <= s.len() && s.subrange(i, i + w.len()) == w
}

/// A node line `AAA = (BBB, CCC)` stands at `i`: sixteen bytes.
pub open spec fn node_at(s: Seq<u8>, i: int) -> bool {
    &&& 0 <= i && i + 16 <= s.len()
    &&& literal_at(s, i + 3, seq![32u8, 61, 32, 40])
    &&& literal_at(s, i + 10, seq![44u8, 32])
    &&& s[i + 15] == 41
}

/// The node that the line at `i` describes.
pub open spec fn node_of(s: Seq<u8>, i: int, n: Node) -> bool {
    n.id@ == chars3(s, i) && n.left@ == chars3(s, i + 7) && n.right@ == chars3(s, i + 12)
}

fn bytes_at(input: &[u8], i: usize, w: &[u8]) -> (r: bool)
    ensures
        r == literal_at(input@, i as int, w@),
{
    let n = input.len();
    if i > n || w.len() > n - i {
        return false;
    }
    let mut j: usize = 0;
    while j < w.len()
        invariant
            n == input@.len(),
            i + w@.len() <= n,
            j <= w@.len(),
            forall|q: int| 0 <= q < j ==> input@[i + q] == w@[q],
        decreases w@.len() - j,
    {
        if input[i + j] != w[j] {
            assert(input@.subrange(i as int, i + w@.len())[j as int] != w@[j as int]);
            return false;
        }
        j += 1;
    }
    assert(input@.subrange(i as int, i + w@.len()) =~= w@);
    true
}

/// The instruction line: everything before the first line break, and the position
/// of that break.
pub fn parse_instructions(input: &[u8]) -> (r: Option<(Instructions, usize)>)
    ensures
        r is None <==> forall|j: int| 0 <= j < input@.len() ==> input@[j] != 10,
        r matches Some((ins, at)) ==> at < input@.len() && input@[at as int] == 10 && (forall|j: int|
            0 <= j < at ==> input@[j] != 10) && ins.0@ == input@.subrange(0, at as int),
{
    let mut out: Vec<u8> = Vec::new();
    let mut i: usize = 0;
    while i < input.len()
        invariant
            i <= input@.len(),
            forall|j: int| 0 <= j < i ==> input@[j] != 10,
            out@ == input@.subrange(0, i as int),
        decreases input@.len() - i,
    {
        if input[i] == 10 {
            return Some((Instructions(out), i));
        }
        out.push(input[i]);
        proof {
            assert(out@ =~= input@.subrange(0, i + 1));
        }
        i += 1;
    }
    None
}

fn line_ending(input: &[u8], i: usize) -> (r: Option<usize>)
    ensures
        r matches Some(e) ==> line_ending_at(input@, i as int) == Some(e as int),
        r is None ==> line_ending_at(input@, i as int) is None,
{
    if i < input.len() && input[i] == 10 {
        Some(i + 1)
    } else if i < input.len() && input.len() - i > 1 && input[i] == 13 && input[i + 1] == 10 {
        Some(i + 2)
    } else {
        None
    }
}

/// Two line endings in a row from `i`: the position after them.
pub fn empty_line(input: &[u8], i: usize) -> (r: Option<usize>)
    ensures
        r matches Some(e) ==> exists|m: int|
            line_ending_at(input@, i as int) == Some(m) && line_ending_at(input@, m) == Some(e as int),
        r is None ==> match line_ending_at(input@, i as int) {
            Some(m) => line_ending_at(input@, m) is None,
            None => true,
        },
{
    let m = line_ending(input, i)?;
    line_ending(input, m)
}

/// The node line at `i`, and the position after it.
pub fn parse_node(input: &[u8], i: usize) -> (r: Option<(Node, usize)>)
    ensures
        r is Some <==> node_at(input@, i as int),
        r matches Some((n, e)) ==> node_of(input@, i as int, n) && e == i + 16,
{
    let n = input.len();
    if i > n || n - i < 16 {
        return None;
    }
    let eq: [u8; 4] = [32, 61, 32, 40];
    let comma: [u8; 2] = [44, 32];
    let close = input[i + 15];
    if !bytes_at(input, i + 3, &eq) || !bytes_at(input, i + 10, &comma) || close != 41 {
        proof {
            assert(eq@ =~= seq![32u8, 61, 32, 40]);
            assert(comma@ =~= seq![44u8, 32]);
        }
        return None;
    }
    proof {
        assert(eq@ =~= seq![32u8, 61, 32, 40]);
        assert(comma@ =~= seq![44u8, 32]);
    }
    let id = [input[i] as char, input[i + 1] as char, input[i + 2] as char];
    let left = [input[i + 7] as char, input[i + 8] as char, input[i + 9] as char];
    let right = [input[i + 12] as char, input[i + 13] as char, input[i + 14] as char];
    proof {
        assert(id@ =~= chars3(input@, i as int));
        assert(left@ =~= chars3(input@, i + 7));
        assert(right@ =~= chars3(input@, i + 12));
    }
    Some((Node { id, left, right }, i + 16))
}

/// The nodes parsed from `i`: one node, then more for as long as a line ending
/// and a node follow; the position after the last node.
pub open spec fn nodes_from(s: Seq<u8>, i: int, count: nat) -> bool
    decreases count,
{
    if count == 0 {
        false
    } else if count == 1 {
        node_at(s, i) && !(line_ending_at(s, i + 16) matches Some(m) && node_at(s, m))
    } else {
        node_at(s, i) && (line_ending_at(s, i + 16) matches Some(m) && nodes_from(s, m, (count - 1) as nat))
    }
}

/// `at` is the position of the first line break of `s`.
pub open spec fn first_newline(s: Seq<u8>, at: int) -> bool {
    0 <= at < s.len() && s[at] == 10 && forall|j: int| 0 <= j < at ==> s[j] != 10
}

/// `s` starts with a line, a blank line and a node line.
pub open spec fn file_starts_well(s: Seq<u8>) -> bool {
    exists|at: int|
        #[trigger] first_newline(s, at) && (line_ending_at(s, at) matches Some(m) && (line_ending_at(
            s,
            m,
        ) matches Some(start) && node_at(s, start)))
}

/// After the line break at `at` come a blank line and then `count` node lines.
pub open spec fn nodes_after_blank_line(s: Seq<u8>, at: int, count: nat) -> bool {
    exists|start: int|
        #[trigger] nodes_from(s, start, count) && exists|m: int|
            line_ending_at(s, at) == Some(m) && line_ending_at(s, m) == Some(start)
}

/// The instruction line, a blank line, then one or more node lines separated by
/// line endings; what follows the last node is left unread. `None` where the text
/// does not start that way.
#[verifier::loop_isolation(false)]
pub fn parse_file_contents(input: &[u8]) -> (r: Option<(Instructions, Vec<Node>)>)
    ensures
        r matches Some((ins, nodes)) ==> ins.0@.len() < input@.len() && input@[ins.0@.len() as int]
            == 10,
        r matches Some((ins, nodes)) ==> forall|j: int| 0 <= j < ins.0@.len() ==> input@[j] != 10,
        r matches Some((ins, nodes)) ==> ins.0@ == input@.subrange(0, ins.0@.len() as int),
        r matches Some((ins, nodes)) ==> nodes_after_blank_line(
            input@,
            ins.0@.len() as int,
            nodes@.len() as nat,
        ),
        r is None <==> !file_starts_well(input@),
{
    let (ins, at) = match parse_instructions(input) {
        Some(p) => p,
        None => {
            return None;
        },
    };
    proof {
        assert(first_newline(input@, at as int));
        assert forall|a: int| #[trigger] first_newline(input@, a) implies a == at by {
            if a < at {
                assert(input@[a] != 10);
            } else if a > at {
                assert(input@[at as int] != 10);
            }
        }
    }
    let start = match empty_line(input, at) {
        Some(st) => st,
        None => {
            return None;
        },
    };
    let ghost s = input@;
    let mut nodes: Vec<Node> = Vec::new();
    let mut positions: Vec<usize> = Vec::new();
    let (first, mut pos) = match parse_node(input, start) {
        Some(p) => p,
        None => {
            return None;
        },
    };
    assert(file_starts_well(input@));
    nodes.push(first);
    positions.push(start);
    loop
        invariant
            s == input@,
            nodes@.len() == positions@.len(),
            nodes@.len() >= 1,
            positions@[0] == start,
            forall|k: int| 0 <= k < positions@.len() ==> node_at(s, #[trigger] positions@[k] as int),
            forall|k: int|
                0 <= k < positions@.len() ==> node_of(s, #[trigger] positions@[k] as int, nodes@[k]),
            forall|k: int|
                0 <= k < positions@.len() - 1 ==> line_ending_at(s, positions@[k] + 16) == Some(
                    #[trigger] positions@[k + 1] as int,
                ),
            pos == positions@.last() + 16,
            pos <= s.len(),
        decreases s.len() - pos,
    {
        let next = match line_ending(input, pos) {
            Some(m) => match parse_node(input, m) {
                Some((n, e)) => Some((n, m, e)),
                None => None,
            },
            None => None,
        };
        match next {
            Some((n, m, e)) => {
                nodes.push(n);
                positions.push(m);
                pos = e;
            },
            None => {
                proof {
                    lemma_nodes_from(s, positions@, 0);
                    assert(nodes_from(s, start as int, nodes@.len() as nat));
                    assert(ins.0@.len() == at);
                    assert(at < s.len() && s[at as int] == 10);
                    assert(exists|m: int|
                        line_ending_at(s, at as int) == Some(m) && line_ending_at(s, m) == Some(
                            start as int,
                        ));
                    assert(nodes_after_blank_line(input@, at as int, nodes@.len() as nat));
                }
                return Some((ins, nodes));
            },
        }
    }
}

proof fn lemma_nodes_from(s: Seq<u8>, ps: Seq<usize>, k: int)
    requires
        0 <= k < ps.len(),
        forall|q: int| 0 <= q < ps.len() ==> node_at(s, #[trigger] ps[q] as int),
        forall|q: int|
            0 <= q < ps.len() - 1 ==> line_ending_at(s, ps[q] + 16) == Some(#[trigger] ps[q + 1] as int),
        !(line_ending_at(s, ps.last() + 16) matches Some(m) && node_at(s, m)),
    ensures
        nodes_from(s, ps[k] as int, (ps.len() - k) as nat),
    decreases ps.len() - k,
{
    if k < ps.len() - 1 {
        lemma_nodes_from(s, ps, k + 1);
        assert(line_ending_at(s, ps[k] + 16) == Some(ps[k + 1] as int));
    }
}

fn same_id(a: &[char; 3], b: &[char; 3]) -> (r: bool)
    ensures
        r == (a@ == b@),
{
    let r = a[0] == b[0] && a[1] == b[1] && a[2] == b[2];
    proof {
        if r {
            assert(a@ =~= b@);
        }
    }
    r
}

/// The index of the first node called `id`.
pub open spec fn index_of(nodes: Seq<Node>, id: Seq<char>, k: int) -> Option<int>
    decreases nodes.len() - k,
{
    if k < 0 || k >= nodes.len() {
        None
    } else if nodes[k].id@ == id {
        Some(k)
    } else {
        index_of(nodes, id, k + 1)
    }
}

fn find_node(nodes: &Vec<Node>, id: &[char; 3]) -> (r: Option<usize>)
    ensures
        r matches Some(k) ==> index_of(nodes@, id@, 0) == Some(k as int),
        r is None ==> index_of(nodes@, id@, 0) is None,
{
    let mut k: usize = 0;
    while k < nodes.len()
        invariant
            k <= nodes@.len(),
            index_of(nodes@, id@, 0) == index_of(nodes@, id@, k as int),
        decreases nodes@.len() - k,
    {
        if same_id(&nodes[k].id, id) {
            return Some(k);
        }
        k += 1;
    }
    None
}

/// One step from node `j` by instruction `c`.
pub open spec fn step(nodes: Seq<Node>, c: u8, j: int) -> Result<int, WalkError> {
    if c == 76 {
        match index_of(nodes, nodes[j].left@, 0) {
            Some(k) => Ok(k),
            None => Err(WalkError::MissingNode),
        }
    } else if c == 82 {
        match index_of(nodes, nodes[j].right@, 0) {
            Some(k) => Ok(k),
            None => Err(WalkError::MissingNode),
        }
    } else {
        Err(WalkError::UnknownInstruction)
    }
}

/// Where the first `n` instructions lead from node `j`.
pub open spec fn follow(nodes: Seq<Node>, ins: Seq<u8>, n: int, j: int) -> Result<int, WalkError>
    decreases n,
{
    if n <= 0 {
        Ok(j)
    } else {
        match follow(nodes, ins, n - 1, j) {
            Ok(k) => step(nodes, ins[n - 1], k),
            Err(e) => Err(e),
        }
    }
}

/// Where `rounds` rounds of all instructions lead from node `j`.
pub open spec fn rounds(nodes: Seq<Node>, ins: Seq<u8>, count: nat, j: int) -> Result<int, WalkError>
    decreases count,
{
    if count == 0 {
        Ok(j)
    } else {
        match rounds(nodes, ins, (count - 1) as nat, j) {
            Ok(k) => follow(nodes, ins, ins.len() as int, k),
            Err(e) => Err(e),
        }
    }
}

pub open spec fn zzz() -> Seq<char> {
    seq!['Z', 'Z', 'Z']
}

pub open spec fn aaa() -> Seq<char> {
    seq!['A', 'A', 'A']
}

proof fn lemma_index_in_range(nodes: Seq<Node>, id: Seq<char>, k: int)
    ensures
        index_of(nodes, id, k) matches Some(i) ==> 0 <= i < nodes.len(),
    decreases nodes.len() - k,
{
    if 0 <= k < nodes.len() {
        lemma_index_in_range(nodes, id, k + 1);
    }
}

proof fn lemma_follow_err(nodes: Seq<Node>, ins: Seq<u8>, n: int, m: int, j: int)
    requires
        0 <= n <= m,
        follow(nodes, ins, n, j) is Err,
    ensures
        follow(nodes, ins, m, j) == follow(nodes, ins, n, j),
    decreases m - n,
{
    if n < m {
        lemma_follow_err(nodes, ins, n, m - 1, j);
    }
}

/// One round of all instructions from node `j`.
fn walk_round(ins: &Instructions, nodes: &Vec<Node>, j: usize) -> (r: Result<usize, WalkError>)
    requires
        j < nodes@.len(),
    ensures
        r matches Ok(k) ==> follow(nodes@, ins.0@, ins.0@.len() as int, j as int) == Ok::<
            int,
            WalkError,
        >(k as int) && k < nodes@.len(),
        r matches Err(e) ==> follow(nodes@, ins.0@, ins.0@.len() as int, j as int) == Err::<
            int,
            WalkError,
        >(e),
        r matches Err(e) ==> e == WalkError::MissingNode || e == WalkError::UnknownInstruction,
{
    let mut cur: usize = j;
    let mut n: usize = 0;
    while n < ins.0.len()
        invariant
            n <= ins.0@.len(),
            cur < nodes@.len(),
            follow(nodes@, ins.0@, n as int, j as int) == Ok::<int, WalkError>(cur as int),
        decreases ins.0@.len() - n,
    {
        let c = ins.0[n];
        let target = if c == 76 {
            &nodes[cur].left
        } else if c == 82 {
            &nodes[cur].right
        } else {
            proof {
                lemma_follow_err(nodes@, ins.0@, n + 1, ins.0@.len() as int, j as int);
            }
            return Err(WalkError::UnknownInstruction);
        };
        match find_node(nodes, target) {
            Some(k) => {
                proof {
                    lemma_index_in_range(nodes@, target@, 0);
                }
                cur = k;
            },
            None => {
                proof {
                    lemma_follow_err(nodes@, ins.0@, n + 1, ins.0@.len() as int, j as int);
                }
                return Err(WalkError::MissingNode);
            },
        }
        n += 1;
    }
    Ok(cur)
}

/// The steps from `AAA` until a round of the instructions ends on `ZZZ`, trying
/// `max_rounds` rounds.
pub fn steps_to_zzz(ins: &Instructions, nodes: &Vec<Node>, max_rounds: usize) -> (r: Result<
    i64,
    WalkError,
>)
    ensures
        r matches Ok(steps) ==> exists|start: int, count: nat|
            index_of(nodes@, aaa(), 0) == Some(start) && count <= max_rounds && (#[trigger] rounds(
                nodes@,
                ins.0@,
                count,
                start,
            ) matches Ok(k) && nodes@[k].id@ == zzz()) && steps == count * ins.0@.len(),
        r == Err::<i64, WalkError>(WalkError::NoStart) <==> index_of(nodes@, aaa(), 0) is None,
        r == Err::<i64, WalkError>(WalkError::NotReached) ==> (index_of(nodes@, aaa(), 0) matches Some(
            start,
        ) && forall|c: nat|
            c <= max_rounds ==> (#[trigger] rounds(nodes@, ins.0@, c, start) matches Ok(k) && 0 <= k
                < nodes@.len() && nodes@[k].id@ != zzz())),
        r == Err::<i64, WalkError>(WalkError::MissingNode) || r == Err::<i64, WalkError>(
            WalkError::UnknownInstruction,
        ) ==> (index_of(nodes@, aaa(), 0) matches Some(start) && exists|c: nat|
            c <= max_rounds && #[trigger] rounds(nodes@, ins.0@, c, start) == Err::<int, WalkError>(
                r->Err_0,
            )),
        r == Err::<i64, WalkError>(WalkError::TooManySteps) ==> (index_of(nodes@, aaa(), 0) matches Some(
            start,
        ) && exists|count: nat|
            count <= max_rounds && (#[trigger] rounds(nodes@, ins.0@, count, start) matches Ok(k) && 0
                <= k < nodes@.len() && nodes@[k].id@ == zzz()) && count * ins.0@.len() > i64::MAX),
{
    let aaa_id = ['A', 'A', 'A'];
    let zzz_id = ['Z', 'Z', 'Z'];
    proof {
        assert(aaa_id@ =~= aaa());
        assert(zzz_id@ =~= zzz());
    }
    let start = match find_node(nodes, &aaa_id) {
        Some(k) => k,
        None => {
            return Err(WalkError::NoStart);
        },
    };
    proof {
        lemma_index_in_range(nodes@, aaa(), 0);
    }
    let mut cur: usize = start;
    let mut count: usize = 0;
    while !same_id(&nodes[cur].id, &zzz_id)
        invariant
            index_of(nodes@, aaa(), 0) == Some(start as int),
            zzz_id@ == zzz(),
            cur < nodes@.len(),
            count <= max_rounds,
            rounds(nodes@, ins.0@, count as nat, start as int) == Ok::<int, WalkError>(cur as int),
            forall|c: nat|
                c < count ==> (#[trigger] rounds(nodes@, ins.0@, c, start as int) matches Ok(k) && 0 <= k
                    < nodes@.len() && nodes@[k].id@ != zzz()),
        decreases max_rounds - count,
    {
        if count == max_rounds {
            return Err(WalkError::NotReached);
        }
        cur = match walk_round(ins, nodes, cur) {
            Ok(k) => k,
            Err(e) => {
                assert(rounds(nodes@, ins.0@, (count + 1) as nat, start as int) == Err::<int, WalkError>(e));
                return Err(e);
            },
        };
        count += 1;
    }
    let len = ins.0.len() as u64;
    let total = (count as u64).checked_mul(len);
    match total {
        Some(t) => {
            if t > i64::MAX as u64 {
                return Err(WalkError::TooManySteps);
            }
            Ok(t as i64)
        },
        None => Err(WalkError::TooManySteps),
    }
}

/// From node `start`, the first `count` rounds all end on a node whose name does
/// not end in `Z`, and round `count` ends on one that does.
pub open spec fn first_z_round(nodes: Seq<Node>, ins: Seq<u8>, start: int, count: nat) -> bool {
    &&& rounds(nodes, ins, count, start) matches Ok(k) && 0 <= k < nodes.len() && nodes[k].id@[2]
        == 'Z'
    &&& forall|c: nat|
        c < count ==> (#[trigger] rounds(nodes, ins, c, start) matches Ok(k) && 0 <= k < nodes.len()
            && nodes[k].id@[2] != 'Z')
}

pub open spec fn product(counts: Seq<nat>, n: int) -> int
    decreases n,
{
    if n <= 0 {
        1
    } else {
        product(counts, n - 1) * counts[n - 1]
    }
}

/// Walks whole rounds from `start` until one ends on a node whose name ends in `Z`,
/// trying `max_rounds` rounds; the number of rounds walked.
fn rounds_to_z(ins: &Instructions, nodes: &Vec<Node>, start: usize, max_rounds: usize) -> (r:
    Result<usize, WalkError>)
    requires
        start < nodes@.len(),
    ensures
        r matches Ok(c) ==> c <= max_rounds && first_z_round(nodes@, ins.0@, start as int, c as nat),
        r == Err::<usize, WalkError>(WalkError::NotReached) ==> forall|c: nat|
            c <= max_rounds ==> (#[trigger] rounds(nodes@, ins.0@, c, start as int) matches Ok(k) && 0
                <= k < nodes@.len() && nodes@[k].id@[2] != 'Z'),
        r matches Err(e) ==> e != WalkError::TooManySteps,
        r matches Err(e) ==> e == WalkError::NotReached || exists|c: nat|
            c <= max_rounds && #[trigger] rounds(nodes@, ins.0@, c, start as int) == Err::<int, WalkError>(e),
{
    let mut cur: usize = start;
    let mut count: usize = 0;
    loop
        invariant
            start < nodes@.len(),
            cur < nodes@.len(),
            count <= max_rounds,
            rounds(nodes@, ins.0@, count as nat, start as int) == Ok::<int, WalkError>(cur as int),
            forall|c: nat|
                c < count ==> (#[trigger] rounds(nodes@, ins.0@, c, start as int) matches Ok(k) && 0 <= k
                    < nodes@.len() && nodes@[k].id@[2] != 'Z'),
        decreases max_rounds - count,
    {
        if nodes[cur].id[2] == 'Z' {
            return Ok(count);
        }
        if count == max_rounds {
            return Err(WalkError::NotReached);
        }
        cur = match walk_round(ins, nodes, cur) {
            Ok(k) => k,
            Err(e) => {
                assert(rounds(nodes@, ins.0@, (count + 1) as nat, start as int) == Err::<int, WalkError>(e));
                return Err(e);
            },
        };
        count += 1;
    }
}

/// For each node whose name ends in `A`, the rounds until a round ends on a node
/// whose name ends in `Z`; the product of those counts times the number of
/// instructions.
pub fn ghost_steps(ins: &Instructions, nodes: &Vec<Node>, max_rounds: usize) -> (r: Result<
    i64,
    WalkError,
>)
    ensures
        r matches Ok(steps) ==> exists|counts: Seq<nat>|
            #![trigger product(counts, nodes@.len() as int)]
            counts.len() == nodes@.len() && (forall|i: int|
                0 <= i < nodes@.len() ==> if nodes@[i].id@[2] == 'A' {
                    first_z_round(nodes@, ins.0@, i, #[trigger] counts[i])
                } else {
                    counts[i] == 1
                }) && steps == product(counts, nodes@.len() as int) * ins.0@.len(),
        r == Err::<i64, WalkError>(WalkError::NotReached) ==> exists|i: int|
            0 <= i < nodes@.len() && nodes@[i].id@[2] == 'A' && forall|c: nat|
                c <= max_rounds ==> (#[trigger] rounds(nodes@, ins.0@, c, i) matches Ok(k) && 0 <= k
                    < nodes@.len() && nodes@[k].id@[2] != 'Z'),
        r is Err && r->Err_0 != WalkError::NotReached && r->Err_0 != WalkError::TooManySteps ==> exists|
            i: int,
            c: nat,
        |
            0 <= i < nodes@.len() && nodes@[i].id@[2] == 'A' && c <= max_rounds && #[trigger] rounds(
                nodes@,
                ins.0@,
                c,
                i,
            ) == Err::<int, WalkError>(r->Err_0),
        r == Err::<i64, WalkError>(WalkError::TooManySteps) ==> exists|counts: Seq<nat>|
            #![trigger product(counts, counts.len() as int)]
            counts.len() <= nodes@.len() && (forall|q: int|
                0 <= q < counts.len() ==> if nodes@[q].id@[2] == 'A' {
                    first_z_round(nodes@, ins.0@, q, #[trigger] counts[q])
                } else {
                    counts[q] == 1
                }) && (product(counts, counts.len() as int) > i64::MAX || (counts.len() == nodes@.len()
                && product(counts, counts.len() as int) * ins.0@.len() > i64::MAX)),
{
    let mut acc: i64 = 1;
    let ghost mut counts: Seq<nat> = Seq::empty();
    let mut i: usize = 0;
    while i < nodes.len()
        invariant
            i <= nodes@.len(),
            counts.len() == i,
            acc == product(counts, i as int),
            acc >= 1,
            forall|q: int|
                0 <= q < i ==> if nodes@[q].id@[2] == 'A' {
                    first_z_round(nodes@, ins.0@, q, #[trigger] counts[q])
                } else {
                    counts[q] == 1
                },
        decreases nodes@.len() - i,
    {
        let c: usize = if nodes[i].id[2] == 'A' {
            match rounds_to_z(ins, nodes, i, max_rounds) {
                Ok(c) => {
                    proof {
                        assert(rounds(nodes@, ins.0@, 0, i as int) == Ok::<int, WalkError>(i as int));
                    }
                    c
                },
                Err(e) => {
                    return Err(e);
                },
            }
        } else {
            1
        };
        let ghost old_counts = counts;
        proof {
            counts = counts.push(c as nat);
            assert(product(counts, i as int) == product(old_counts, i as int)) by {
                lemma_product_prefix(old_counts, counts, i as int);
            }
        }
        assert(c >= 1);
        if c as u64 > i64::MAX as u64 {
            proof {
                assert(product(counts, i + 1) == acc * c);
                assert(acc * c >= c) by (nonlinear_arith)
                    requires
                        acc >= 1,
                        c >= 1,
                ;
            }
            return Err(WalkError::TooManySteps);
        }
        acc = match acc.checked_mul(c as i64) {
            Some(p) => p,
            None => {
                proof {
                    assert(product(counts, i + 1) == acc * c);
                    assert(acc * c >= 1) by (nonlinear_arith)
                        requires
                            acc >= 1,
                            c >= 1,
                    ;
                    assert(product(counts, counts.len() as int) > i64::MAX);
                }
                return Err(WalkError::TooManySteps);
            },
        };
        proof {
            assert(acc >= 1) by (nonlinear_arith)
                requires
                    acc == product(old_counts, i as int) * c,
                    product(old_counts, i as int) >= 1,
                    c >= 1,
            ;
        }
        i += 1;
    }
    let len = ins.0.len();
    assert(product(counts, counts.len() as int) == acc);
    if len as u64 > i64::MAX as u64 {
        proof {
            assert(acc * len >= len) by (nonlinear_arith)
                requires
                    acc >= 1,
            ;
        }
        return Err(WalkError::TooManySteps);
    }
    match acc.checked_mul(len as i64) {
        Some(t) => Ok(t),
        None => {
            assert(product(counts, counts.len() as int) * len > i64::MAX);
            Err(WalkError::TooManySteps)
        },
    }
}

proof fn lemma_product_prefix(a: Seq<nat>, b: Seq<nat>, n: int)
    requires
        0 <= n <= a.len(),
        n <= b.len(),
        forall|k: int| 0 <= k < n ==> a[k] == b[k],
    ensures
        product(a, n) == product(b, n),
    decreases n,
{
    if n > 0 {
        lemma_product_prefix(a, b, n - 1);
    }
}

} // verus!
