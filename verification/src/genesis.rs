//! Election of the genesis committee of the proof-of-stake chain: every
//! unit of voting power of every initial node draws a ticket, the hash of
//! the node's address, the seed and the unit's number; the highest tickets
//! win seats.
use vstd::prelude::*;
use vstd::relations::{sorted_by, total_ordering};
use vstd::multiset::Multiset;

verus! {

/// Lexicographic order of byte sequences.
pub open spec fn bytes_lt(a: Seq<u8>, b: Seq<u8>) -> bool
    decreases a.len(),
{
    if a.len() == 0 {
        b.len() > 0
    } else if b.len() == 0 {
        false
    } else if a[0] != b[0] {
        a[0] < b[0]
    } else {
        bytes_lt(a.drop_first(), b.drop_first())
    }
}

pub proof fn lemma_bytes_lt_trichotomy(a: Seq<u8>, b: Seq<u8>)
    ensures
        bytes_lt(a, b) || a == b || bytes_lt(b, a),
        !(bytes_lt(a, b) && bytes_lt(b, a)),
        !(bytes_lt(a, b) && a == b),
    decreases a.len(),
{
    if a.len() > 0 && b.len() > 0 && a[0] == b[0] {
        lemma_bytes_lt_trichotomy(a.drop_first(), b.drop_first());
        if a.drop_first() == b.drop_first() {
            assert(a =~= seq![a[0]] + a.drop_first());
            assert(b =~= seq![b[0]] + b.drop_first());
        }
    } else if a.len() == 0 && b.len() == 0 {
        assert(a =~= b);
    } else if a.len() > 0 && b.len() > 0 {
        assert(a != b) by {
            assert(a[0] != b[0]);
        }
    } else {
        assert(a != b) by {
            assert(a.len() != b.len());
        }
    }
}

pub proof fn lemma_bytes_lt_transitive(a: Seq<u8>, b: Seq<u8>, c: Seq<u8>)
    requires
        bytes_lt(a, b),
        bytes_lt(b, c),
    ensures
        bytes_lt(a, c),
    decreases a.len(),
{
    if a.len() > 0 && b.len() > 0 && c.len() > 0 && a[0] == b[0] && b[0] == c[0] {
        lemma_bytes_lt_transitive(a.drop_first(), b.drop_first(), c.drop_first());
    }
}

/// A ticket: a hash, and the address of the node that drew it.
pub type Ticket = (Seq<u8>, Seq<u8>);

/// The order of tickets: by hash, then by address.
pub open spec fn ticket_lt(a: Ticket, b: Ticket) -> bool {
    bytes_lt(a.0, b.0) || (a.0 == b.0 && bytes_lt(a.1, b.1))
}

/// `a` is not above `b`.
pub open spec fn ticket_leq(a: Ticket, b: Ticket) -> bool {
    !ticket_lt(b, a)
}

pub proof fn lemma_ticket_lt_trichotomy(a: Ticket, b: Ticket)
    ensures
        ticket_lt(a, b) || a == b || ticket_lt(b, a),
        !(ticket_lt(a, b) && ticket_lt(b, a)),
        !(ticket_lt(a, b) && a == b),
{
    lemma_bytes_lt_trichotomy(a.0, b.0);
    lemma_bytes_lt_trichotomy(a.1, b.1);
}

pub proof fn lemma_ticket_lt_transitive(a: Ticket, b: Ticket, c: Ticket)
    requires
        ticket_lt(a, b),
        ticket_lt(b, c),
    ensures
        ticket_lt(a, c),
{
    if bytes_lt(a.0, b.0) && bytes_lt(b.0, c.0) {
        lemma_bytes_lt_transitive(a.0, b.0, c.0);
    }
    if a.0 == b.0 && b.0 == c.0 && bytes_lt(a.1, b.1) && bytes_lt(b.1, c.1) {
        lemma_bytes_lt_transitive(a.1, b.1, c.1);
    }
}

/// The order of tickets, as a relation.
pub open spec fn ticket_order() -> spec_fn(Ticket, Ticket) -> bool {
    |a: Ticket, b: Ticket| ticket_leq(a, b)
}

/// The order of tickets is a total order.
pub proof fn lemma_ticket_leq_total()
    ensures
        total_ordering(ticket_order()),
{
    let leq = ticket_order();
    assert forall|x: Ticket| #[trigger] leq(x, x) by {
        lemma_ticket_lt_trichotomy(x, x);
    }
    assert forall|x: Ticket, y: Ticket| #[trigger] leq(x, y) && #[trigger] leq(y, x) implies x
        == y by {
        lemma_ticket_lt_trichotomy(x, y);
    }
    assert forall|x: Ticket, y: Ticket, z: Ticket| #[trigger] leq(x, y) && #[trigger] leq(
        y,
        z,
    ) implies leq(x, z) by {
        lemma_ticket_lt_trichotomy(x, y);
        lemma_ticket_lt_trichotomy(y, z);
        lemma_ticket_lt_trichotomy(x, z);
        if ticket_lt(z, x) {
            if ticket_lt(x, y) {
                lemma_ticket_lt_transitive(z, x, y);
            } else if ticket_lt(y, z) {
                lemma_ticket_lt_transitive(y, z, x);
            }
        }
    }
    assert forall|x: Ticket, y: Ticket| #[trigger] leq(x, y) || #[trigger] leq(y, x) by {
        lemma_ticket_lt_trichotomy(x, y);
    }
    assert(vstd::relations::reflexive(leq));
    assert(vstd::relations::antisymmetric(leq));
    assert(vstd::relations::transitive(leq));
    assert(vstd::relations::strongly_connected(leq));
}

/// The SHA3-256 hash of bytes.
pub uninterp spec fn sha3_256(input: Seq<u8>) -> Seq<u8>;

/// Trusted: calls `diem_crypto::HashValue::sha3_256_of`, the SHA3-256 hash
/// of the bytes; the result is named.
#[verifier::external_body]
fn sha3_256_of(buffer: &[u8]) -> (r: [u8; 32])
    ensures
        r@ == sha3_256(buffer@),
{
    let h = diem_crypto::HashValue::sha3_256_of(buffer);
    let bytes: &[u8; 32] = h.as_ref();
    *bytes
}

/// A ticket as the election holds it: hash, then address.
pub type TicketBytes = ([u8; 32], [u8; 32]);

/// The tickets as plain values.
pub open spec fn tickets_view(v: Seq<TicketBytes>) -> Seq<Ticket> {
    v.map_values(|t: TicketBytes| (t.0@, t.1@))
}

/// Trusted: calls `slice::sort`, which orders the tickets ascending by
/// `Ord` of `([u8; 32], [u8; 32])`: lexicographic, by hash, then address,
/// each compared byte by byte. The result is a permutation of the input.
#[verifier::external_body]
fn sort_tickets(v: &mut Vec<TicketBytes>)
    ensures
        tickets_view(final(v)@).to_multiset() == tickets_view(old(v)@).to_multiset(),
        sorted_by(tickets_view(final(v)@), ticket_order()),
{
    v.sort()
}

/// An initial node: its address and its voting power.
#[derive(Clone, Copy, Debug, PartialEq, Eq)]
pub struct GenesisNode {
    pub addr: [u8; 32],
    pub voting_power: u64,
}

/// The eight bytes of a number, most significant first.
pub open spec fn be_bytes(x: u64) -> Seq<u8> {
    Seq::new(8, |i: int| ((x >> ((8 * (7 - i)) as u64)) & 0xffu64) as u8)
}

/// The tickets of a node: one for each unit of its voting power.
pub open spec fn node_tickets(addr: Seq<u8>, seed: Seq<u8>, n: nat) -> Seq<Ticket> {
    Seq::new(n, |j: int| (sha3_256(addr + seed + be_bytes(j as u64)), addr))
}

/// The tickets of all nodes, node after node.
pub open spec fn all_tickets(nodes: Seq<GenesisNode>, seed: Seq<u8>) -> Seq<Ticket>
    decreases nodes.len(),
{
    if nodes.len() == 0 {
        Seq::empty()
    } else {
        all_tickets(nodes.drop_last(), seed) + node_tickets(
            nodes.last().addr@,
            seed,
            nodes.last().voting_power as nat,
        )
    }
}

/// How many tickets win: the committee size, at least one, at most all.
pub open spec fn seats(n: nat, k: nat) -> nat {
    if n == 0 {
        0
    } else if k == 0 {
        1
    } else if k < n {
        k
    } else {
        n
    }
}

/// The winning tickets among `ts`: the highest ones.
pub open spec fn winning(ts: Seq<Ticket>, k: nat) -> Seq<Ticket> {
    let s = ts.sort_by(ticket_order());
    s.subrange(s.len() - seats(s.len(), k), s.len() as int)
}

/// The winning tickets of the nodes.
pub open spec fn winning_tickets(nodes: Seq<GenesisNode>, seed: Seq<u8>, k: nat) -> Seq<Ticket> {
    winning(all_tickets(nodes, seed), k)
}

/// `a` is the address of one of the counted entries.
pub open spec fn lists_address(cs: Seq<([u8; 32], u64)>, a: Seq<u8>) -> bool {
    exists|q: int| 0 <= q < cs.len() && cs[q].0@ == a
}

/// How many of the tickets an address holds.
pub open spec fn count_of(ts: Seq<Ticket>, a: Seq<u8>) -> nat
    decreases ts.len(),
{
    if ts.len() == 0 {
        0
    } else {
        count_of(ts.drop_last(), a) + if ts.last().1 == a {
            1nat
        } else {
            0nat
        }
    }
}

/// The position of the last node with an address; -1 for none.
pub open spec fn last_index_of(nodes: Seq<GenesisNode>, a: Seq<u8>) -> int
    decreases nodes.len(),
{
    if nodes.len() == 0 {
        -1
    } else if nodes.last().addr@ == a {
        nodes.len() - 1
    } else {
        last_index_of(nodes.drop_last(), a)
    }
}

/// `r` is the committee that the tickets `ts` elect: for each address that
/// holds a winning ticket, in increasing order of address, the last node
/// with that address and the number of winning tickets it holds.
pub open spec fn committee_of(
    r: Seq<(usize, u64)>,
    nodes: Seq<GenesisNode>,
    ts: Seq<Ticket>,
    k: nat,
) -> bool {
    let w = winning(ts, k);
    &&& forall|i: int|
        0 <= i < r.len() ==> {
            &&& (#[trigger] r[i]).0 < nodes.len()
            &&& r[i].0 == last_index_of(nodes, nodes[r[i].0 as int].addr@)
            &&& r[i].1 == count_of(w, nodes[r[i].0 as int].addr@)
            &&& r[i].1 > 0
        }
    &&& forall|i: int, j: int|
        0 <= i < j < r.len() ==> bytes_lt(
            nodes[(#[trigger] r[i]).0 as int].addr@,
            nodes[(#[trigger] r[j]).0 as int].addr@,
        )
    &&& forall|m: int| 0 <= m < w.len() ==> seated(r, nodes, (#[trigger] w[m]).1)
}

/// `r` is the committee that the nodes elect with the seed.
pub open spec fn is_committee(
    r: Seq<(usize, u64)>,
    nodes: Seq<GenesisNode>,
    seed: Seq<u8>,
    k: nat,
) -> bool {
    committee_of(r, nodes, all_tickets(nodes, seed), k)
}

/// Each ticket was drawn by one of the nodes.
pub open spec fn drawn_by(ts: Seq<Ticket>, nodes: Seq<GenesisNode>) -> bool {
    forall|m: int|
        0 <= m < ts.len() ==> exists|i: int|
            0 <= i < nodes.len() && (#[trigger] nodes[i]).addr@ == (#[trigger] ts[m]).1
}

/// One of the entries of `r` names a node with address `a`.
pub open spec fn seated(r: Seq<(usize, u64)>, nodes: Seq<GenesisNode>, a: Seq<u8>) -> bool {
    exists|i: int| 0 <= i < r.len() && nodes[(#[trigger] r[i]).0 as int].addr@ == a
}

/// The eight bytes of a number, most significant first.
fn be_bytes_of(x: u64) -> (r: Vec<u8>)
    ensures
        r@ == be_bytes(x),
{
    let mut r: Vec<u8> = Vec::new();
    let mut i: u64 = 0;
    while i < 8
        invariant
            i <= 8,
            r@ == be_bytes(x).take(i as int),
        decreases 8 - i,
    {
        let sh: u64 = 8 * (7 - i);
        r.push(((x >> sh) & 0xffu64) as u8);
        proof {
            assert(be_bytes(x).take(i + 1) =~= be_bytes(x).take(i as int).push(
                ((x >> sh) & 0xffu64) as u8,
            ));
        }
        i = i + 1;
    }
    proof {
        assert(be_bytes(x).take(8) =~= be_bytes(x));
    }
    r
}

/// Appends bytes.
fn append_bytes(out: &mut Vec<u8>, s: &[u8])
    ensures
        final(out)@ == old(out)@ + s@,
{
    let ghost start = out@;
    let mut i: usize = 0;
    while i < s.len()
        invariant
            i <= s.len(),
            out@ == start + s@.take(i as int),
        decreases s.len() - i,
    {
        out.push(s[i]);
        proof {
            assert(s@.take(i + 1) =~= s@.take(i as int).push(s@[i as int]));
        }
        i = i + 1;
    }
    proof {
        assert(s@.take(s.len() as int) =~= s@);
    }
}

/// Compares byte sequences in lexicographic order: -1, 0 or 1.
fn compare_bytes(a: &[u8], b: &[u8]) -> (r: i8)
    ensures
        r == -1 || r == 0 || r == 1,
        r == -1 <==> bytes_lt(a@, b@),
        r == 0 <==> a@ == b@,
        r == 1 <==> bytes_lt(b@, a@),
{
    let mut i: usize = 0;
    proof {
        assert(a@.skip(0) =~= a@);
        assert(b@.skip(0) =~= b@);
        assert(a@.take(0) =~= b@.take(0));
    }
    while i < a.len() && i < b.len()
        invariant
            i <= a.len(),
            i <= b.len(),
            a@.take(i as int) == b@.take(i as int),
            bytes_lt(a@, b@) == bytes_lt(a@.skip(i as int), b@.skip(i as int)),
            bytes_lt(b@, a@) == bytes_lt(b@.skip(i as int), a@.skip(i as int)),
        decreases a.len() - i,
    {
        if a[i] != b[i] {
            proof {
                lemma_bytes_lt_trichotomy(a@, b@);
                assert(a@ != b@) by {
                    assert(a@[i as int] != b@[i as int]);
                }
                assert(a@.skip(i as int)[0] == a@[i as int]);
                assert(b@.skip(i as int)[0] == b@[i as int]);
            }
            if a[i] < b[i] {
                return -1;
            } else {
                return 1;
            }
        }
        proof {
            assert(a@.take(i + 1) =~= a@.take(i as int).push(a@[i as int]));
            assert(b@.take(i + 1) =~= b@.take(i as int).push(b@[i as int]));
            assert(a@.skip(i as int).drop_first() =~= a@.skip(i + 1));
            assert(b@.skip(i as int).drop_first() =~= b@.skip(i + 1));
            assert(a@.skip(i as int)[0] == a@[i as int]);
            assert(b@.skip(i as int)[0] == b@[i as int]);
        }
        i = i + 1;
    }
    proof {
        lemma_bytes_lt_trichotomy(a@, b@);
        if i == a.len() && i == b.len() {
            assert(a@ =~= a@.take(i as int));
            assert(b@ =~= b@.take(i as int));
        } else {
            assert(a@ != b@) by {
                assert(a@.len() != b@.len());
            }
        }
    }
    if i == a.len() && i == b.len() {
        0
    } else if i == a.len() {
        -1
    } else {
        1
    }
}

/// The tickets of all nodes.
fn build_tickets(nodes: &[GenesisNode], seed: &[u8]) -> (r: Vec<TicketBytes>)
    ensures
        tickets_view(r@) == all_tickets(nodes@, seed@),
{
    let mut tickets: Vec<TicketBytes> = Vec::new();
    let mut i: usize = 0;
    proof {
        assert(nodes@.take(0) =~= Seq::<GenesisNode>::empty());
        assert(tickets_view(tickets@) =~= Seq::<Ticket>::empty());
    }
    while i < nodes.len()
        invariant
            i <= nodes@.len(),
            tickets_view(tickets@) == all_tickets(nodes@.take(i as int), seed@),
        decreases nodes@.len() - i,
    {
        let node = nodes[i];
        let mut buffer: Vec<u8> = Vec::new();
        append_bytes(&mut buffer, node.addr.as_slice());
        append_bytes(&mut buffer, seed);
        let ghost before = tickets_view(tickets@);
        let mut nonce: u64 = 0;
        proof {
            assert(node_tickets(node.addr@, seed@, 0) =~= Seq::<Ticket>::empty());
            assert(before + node_tickets(node.addr@, seed@, 0) =~= before);
        }
        while nonce < node.voting_power
            invariant
                nonce <= node.voting_power,
                buffer@ == node.addr@ + seed@,
                tickets_view(tickets@) == before + node_tickets(node.addr@, seed@, nonce as nat),
            decreases node.voting_power - nonce,
        {
            let mut input: Vec<u8> = Vec::new();
            append_bytes(&mut input, buffer.as_slice());
            let be = be_bytes_of(nonce);
            append_bytes(&mut input, be.as_slice());
            let h = sha3_256_of(input.as_slice());
            let ghost old_t = tickets@;
            tickets.push((h, node.addr));
            proof {
                assert(tickets@ == old_t.push((h, node.addr)));
                assert(tickets_view(tickets@) =~= tickets_view(old_t).push((h@, node.addr@)));
                assert(node_tickets(node.addr@, seed@, (nonce + 1) as nat) =~= node_tickets(
                    node.addr@,
                    seed@,
                    nonce as nat,
                ).push((sha3_256(node.addr@ + seed@ + be_bytes(nonce)), node.addr@)));
            }
            nonce = nonce + 1;
        }
        proof {
            assert(nodes@.take(i + 1).drop_last() =~= nodes@.take(i as int));
            assert(nodes@.take(i + 1).last() == node);
        }
        i = i + 1;
    }
    proof {
        assert(nodes@.take(nodes@.len() as int) =~= nodes@);
    }
    tickets
}

proof fn lemma_count_of_bound(ts: Seq<Ticket>, a: Seq<u8>)
    ensures
        count_of(ts, a) <= ts.len(),
        count_of(ts, a) > 0 ==> exists|m: int| 0 <= m < ts.len() && ts[m].1 == a,
    decreases ts.len(),
{
    if ts.len() > 0 {
        lemma_count_of_bound(ts.drop_last(), a);
        if count_of(ts.drop_last(), a) > 0 {
            let m = choose|m: int| 0 <= m < ts.drop_last().len() && ts.drop_last()[m].1 == a;
            assert(ts[m].1 == a);
        }
        if ts.last().1 == a {
            assert(ts[ts.len() - 1].1 == a);
        }
    }
}

/// Counts the tickets `v[from..]` by address, in increasing order of
/// address.
fn count_addresses(v: &Vec<TicketBytes>, from: usize) -> (r: Vec<([u8; 32], u64)>)
    requires
        from <= v@.len(),
    ensures
        ({
            let w = tickets_view(v@).subrange(from as int, v@.len() as int);
            &&& forall|j: int|
                0 <= j < r@.len() ==> (#[trigger] r@[j]).1 == count_of(w, r@[j].0@) && r@[j].1
                    > 0
            &&& forall|i: int, j: int|
                0 <= i < j < r@.len() ==> bytes_lt((#[trigger] r@[i]).0@, (#[trigger] r@[j]).0@)
            &&& forall|m: int| 0 <= m < w.len() ==> lists_address(r@, (#[trigger] w[m]).1)
        }),
{
    let ghost all = tickets_view(v@);
    let ghost w = all.subrange(from as int, v@.len() as int);
    let mut counts: Vec<([u8; 32], u64)> = Vec::new();
    let mut m: usize = from;
    while m < v.len()
        invariant
            from <= m <= v@.len(),
            all == tickets_view(v@),
            w == all.subrange(from as int, v@.len() as int),
            forall|j: int|
                0 <= j < counts@.len() ==> (#[trigger] counts@[j]).1 == count_of(
                    w.take(m - from),
                    counts@[j].0@,
                ) && counts@[j].1 > 0,
            forall|i: int, j: int|
                0 <= i < j < counts@.len() ==> bytes_lt(
                    (#[trigger] counts@[i]).0@,
                    (#[trigger] counts@[j]).0@,
                ),
            forall|l: int|
                0 <= l < m - from ==> exists|j: int|
                    0 <= j < counts@.len() && (#[trigger] counts@[j]).0@ == (#[trigger] w[l]).1,
        decreases v@.len() - m,
    {
        let a = v[m].1;
        let ghost ws = w.take(m - from);
        let ghost ws1 = w.take(m - from + 1);
        proof {
            assert(ws1.drop_last() =~= ws);
            assert(w[m - from] == all[m as int]);
            assert(all[m as int] == (v@[m as int].0@, v@[m as int].1@));
            assert(ws1.last() == w[m - from]);
            assert(ws1.last().1 == a@);
        }
        let mut p: usize = 0;
        let cl = counts.len();
        loop
            invariant
                p <= cl,
                cl == counts@.len(),
                forall|q: int| 0 <= q < p ==> bytes_lt((#[trigger] counts@[q]).0@, a@),
            ensures
                p <= cl,
                forall|q: int| 0 <= q < p ==> bytes_lt((#[trigger] counts@[q]).0@, a@),
                p < cl ==> !bytes_lt(counts@[p as int].0@, a@),
            decreases cl - p,
        {
            if p == cl {
                break;
            }
            let c = compare_bytes(counts[p].0.as_slice(), a.as_slice());
            if c != -1 {
                break;
            }
            p = p + 1;
        }
        let ghost old_counts = counts@;
        if p < cl && compare_bytes(counts[p].0.as_slice(), a.as_slice()) == 0 {
            let c = counts[p].1;
            proof {
                lemma_count_of_bound(ws, a@);
                assert(c as nat <= ws.len());
            }
            counts.set(p, (a, c + 1));
            proof {
                assert forall|j: int| 0 <= j < counts@.len() implies (#[trigger] counts@[j]).1
                    == count_of(ws1, counts@[j].0@) && counts@[j].1 > 0 by {
                    if j != p {
                        assert(counts@[j] == old_counts[j]);
                        lemma_bytes_lt_trichotomy(old_counts[j].0@, a@);
                        if j < p {
                            assert(bytes_lt(old_counts[j].0@, old_counts[p as int].0@));
                        } else {
                            assert(bytes_lt(old_counts[p as int].0@, old_counts[j].0@));
                        }
                    }
                }
                assert forall|i: int, j: int| 0 <= i < j < counts@.len() implies bytes_lt(
                    (#[trigger] counts@[i]).0@,
                    (#[trigger] counts@[j]).0@,
                ) by {
                    assert(old_counts[i].0@ == counts@[i].0@);
                    assert(old_counts[j].0@ == counts@[j].0@);
                }
                assert forall|l: int| 0 <= l < m - from + 1 implies exists|j: int|
                    0 <= j < counts@.len() && (#[trigger] counts@[j]).0@ == (#[trigger] w[l]).1 by {
                    if l < m - from {
                        let j = choose|j: int|
                            0 <= j < old_counts.len() && (#[trigger] old_counts[j]).0@ == w[l].1;
                        assert(counts@[j].0@ == old_counts[j].0@);
                    } else {
                        assert(counts@[p as int].0@ == w[l].1);
                    }
                }
            }
        } else {
            proof {
                if p < cl {
                    lemma_bytes_lt_trichotomy(counts@[p as int].0@, a@);
                }
                assert forall|j: int| 0 <= j < old_counts.len() implies old_counts[j].0@ != a@ by {
                    if j < p {
                        lemma_bytes_lt_trichotomy(old_counts[j].0@, a@);
                    } else {
                        lemma_bytes_lt_trichotomy(old_counts[p as int].0@, a@);
                        if j > p {
                            assert(bytes_lt(old_counts[p as int].0@, old_counts[j].0@));
                            lemma_bytes_lt_trichotomy(old_counts[j].0@, a@);
                            if old_counts[j].0@ == a@ {
                                lemma_bytes_lt_trichotomy(old_counts[p as int].0@, old_counts[j].0@);
                            }
                        }
                    }
                }
                lemma_count_of_bound(ws, a@);
                if count_of(ws, a@) > 0 {
                    let l = choose|l: int| 0 <= l < ws.len() && ws[l].1 == a@;
                    assert(ws[l] == w[l]);
                    let j = choose|j: int|
                        0 <= j < old_counts.len() && (#[trigger] old_counts[j]).0@ == (
                        #[trigger] w[l]).1;
                    assert(false);
                }
            }
            counts.insert(p, (a, 1u64));
            proof {
                assert forall|j: int| 0 <= j < counts@.len() implies (#[trigger] counts@[j]).1
                    == count_of(ws1, counts@[j].0@) && counts@[j].1 > 0 by {
                    if j < p {
                        assert(counts@[j] == old_counts[j]);
                    } else if j > p {
                        assert(counts@[j] == old_counts[j - 1]);
                    }
                }
                assert forall|i: int, j: int| 0 <= i < j < counts@.len() implies bytes_lt(
                    (#[trigger] counts@[i]).0@,
                    (#[trigger] counts@[j]).0@,
                ) by {
                    if j < p {
                        assert(counts@[i] == old_counts[i] && counts@[j] == old_counts[j]);
                    } else if i > p {
                        assert(counts@[i] == old_counts[i - 1] && counts@[j] == old_counts[j - 1]);
                    } else if i == p {
                        assert(counts@[j] == old_counts[j - 1]);
                        lemma_bytes_lt_trichotomy(old_counts[p as int].0@, a@);
                        if j - 1 > p {
                            assert(bytes_lt(old_counts[p as int].0@, old_counts[j - 1].0@));
                            lemma_bytes_lt_transitive(
                                a@,
                                old_counts[p as int].0@,
                                old_counts[j - 1].0@,
                            );
                        }
                    } else if j == p {
                        assert(counts@[i] == old_counts[i]);
                    } else {
                        assert(counts@[i] == old_counts[i] && counts@[j] == old_counts[j - 1]);
                        if j - 1 > i {
                            assert(bytes_lt(old_counts[i].0@, old_counts[j - 1].0@));
                        }
                    }
                }
                assert forall|l: int| 0 <= l < m - from + 1 implies exists|j: int|
                    0 <= j < counts@.len() && (#[trigger] counts@[j]).0@ == (#[trigger] w[l]).1 by {
                    if l < m - from {
                        let j = choose|j: int|
                            0 <= j < old_counts.len() && (#[trigger] old_counts[j]).0@ == w[l].1;
                        if j < p {
                            assert(counts@[j] == old_counts[j]);
                        } else {
                            assert(counts@[j + 1] == old_counts[j]);
                        }
                    } else {
                        assert(counts@[p as int].0@ == w[l].1);
                    }
                }
            }
        }
        m = m + 1;
    }
    proof {
        assert(w.take(v@.len() - from) =~= w);
        assert forall|l: int| 0 <= l < w.len() implies lists_address(counts@, (#[trigger] w[l]).1) by {
            let j = choose|j: int| 0 <= j < counts@.len() && (#[trigger] counts@[j]).0@ == w[l].1;
        }
    }
    counts
}


proof fn lemma_last_index_of(nodes: Seq<GenesisNode>, a: Seq<u8>)
    ensures
        -1 <= last_index_of(nodes, a) < nodes.len(),
        last_index_of(nodes, a) >= 0 ==> nodes[last_index_of(nodes, a)].addr@ == a,
        (exists|i: int| 0 <= i < nodes.len() && (#[trigger] nodes[i]).addr@ == a) ==> last_index_of(
            nodes,
            a,
        ) >= 0,
    decreases nodes.len(),
{
    if nodes.len() > 0 {
        lemma_last_index_of(nodes.drop_last(), a);
        if nodes.last().addr@ != a {
            if exists|i: int| 0 <= i < nodes.len() && (#[trigger] nodes[i]).addr@ == a {
                let i = choose|i: int| 0 <= i < nodes.len() && (#[trigger] nodes[i]).addr@ == a;
                assert(i < nodes.len() - 1);
                assert(nodes.drop_last()[i] == nodes[i]);
            }
        }
    }
}

/// Every ticket was drawn by one of the nodes.
proof fn lemma_ticket_owners(nodes: Seq<GenesisNode>, seed: Seq<u8>)
    ensures
        drawn_by(all_tickets(nodes, seed), nodes),
    decreases nodes.len(),
{
    if nodes.len() > 0 {
        let init = nodes.drop_last();
        lemma_ticket_owners(init, seed);
        let pre = all_tickets(init, seed);
        let all = all_tickets(nodes, seed);
        assert forall|m: int| 0 <= m < all.len() implies exists|i: int|
            0 <= i < nodes.len() && (#[trigger] nodes[i]).addr@ == (#[trigger] all[m]).1 by {
            if m < pre.len() {
                assert(all[m] == pre[m]);
                assert(pre[m] == pre[m]);
                let i = choose|i: int|
                    0 <= i < init.len() && (#[trigger] init[i]).addr@ == (#[trigger] pre[m]).1;
                assert(nodes[i] == init[i]);
            } else {
                assert(all[m].1 == nodes.last().addr@);
                assert(nodes[nodes.len() - 1] == nodes.last());
            }
        }
    }
}

/// The position of the last node with the address.
fn last_index(nodes: &[GenesisNode], a: &[u8; 32]) -> (r: usize)
    requires
        last_index_of(nodes@, a@) >= 0,
    ensures
        r == last_index_of(nodes@, a@),
{
    let mut i: usize = nodes.len();
    proof {
        assert(nodes@.take(i as int) =~= nodes@);
    }
    while i > 0
        invariant
            i <= nodes@.len(),
            last_index_of(nodes@, a@) == last_index_of(nodes@.take(i as int), a@),
        decreases i,
    {
        let ghost t = nodes@.take(i as int);
        proof {
            assert(t.last() == nodes@[i - 1]);
            assert(t.drop_last() =~= nodes@.take(i - 1));
        }
        if compare_bytes(nodes[i - 1].addr.as_slice(), a.as_slice()) == 0 {
            return i - 1;
        }
        i = i - 1;
    }
    proof {
        assert(nodes@.take(0).len() == 0);
    }
    0
}

/// The committee that the tickets elect. The highest tickets win, by hash
/// and then by address: `max_committee_size` of them, at least one, and all
/// of them where there are fewer. The result lists, in increasing order of
/// address, the last node with each address that won and how many tickets
/// it won.
pub fn elect_from_tickets(
    nodes: &[GenesisNode],
    tickets: Vec<TicketBytes>,
    max_committee_size: usize,
) -> (r: Vec<(usize, u64)>)
    requires
        drawn_by(tickets_view(tickets@), nodes@),
    ensures
        committee_of(r@, nodes@, tickets_view(tickets@), max_committee_size as nat),
{
    let mut tickets = tickets;
    let ghost all = tickets_view(tickets@);
    sort_tickets(&mut tickets);
    proof {
        lemma_ticket_leq_total();
        all.lemma_sort_by_ensures(ticket_order());
        vstd::seq_lib::lemma_sorted_unique(
            tickets_view(tickets@),
            all.sort_by(ticket_order()),
            ticket_order(),
        );
    }
    let n = tickets.len();
    let k = max_committee_size;
    let s: usize = if n == 0 {
        0
    } else if k == 0 {
        1
    } else if k < n {
        k
    } else {
        n
    };
    let counts = count_addresses(&tickets, n - s);
    let ghost sorted = tickets_view(tickets@);
    let ghost w = sorted.subrange((n - s) as int, n as int);
    proof {
        assert(w == winning(all, k as nat));
        assert(w == tickets_view(tickets@).subrange((n - s) as int, tickets@.len() as int));
    }
    let mut r: Vec<(usize, u64)> = Vec::new();
    let mut j: usize = 0;
    while j < counts.len()
        invariant
            j <= counts@.len(),
            r@.len() == j,
            w == winning(all, k as nat),
            w == sorted.subrange((n - s) as int, n as int),
            sorted.to_multiset() == all.to_multiset(),
            sorted.len() == n,
            s <= n,
            drawn_by(all, nodes@),
            forall|q: int|
                0 <= q < counts@.len() ==> (#[trigger] counts@[q]).1 == count_of(
                    w,
                    counts@[q].0@,
                ) && counts@[q].1 > 0,
            forall|q1: int, q2: int|
                0 <= q1 < q2 < counts@.len() ==> bytes_lt(
                    (#[trigger] counts@[q1]).0@,
                    (#[trigger] counts@[q2]).0@,
                ),
            forall|m: int| 0 <= m < w.len() ==> lists_address(counts@, (#[trigger] w[m]).1),
            forall|q: int|
                0 <= q < j ==> {
                    &&& (#[trigger] r@[q]).0 < nodes@.len()
                    &&& r@[q].0 == last_index_of(nodes@, counts@[q].0@)
                    &&& nodes@[r@[q].0 as int].addr@ == counts@[q].0@
                    &&& r@[q].1 == counts@[q].1
                },
        decreases counts@.len() - j,
    {
        let a = counts[j].0;
        proof {
            lemma_count_of_bound(w, a@);
            let m = choose|m: int| 0 <= m < w.len() && w[m].1 == a@;
            assert(w[m] == sorted[m + (n - s)]);
            assert(sorted.contains(w[m]));
            vstd::seq_lib::to_multiset_contains(sorted, w[m]);
            vstd::seq_lib::to_multiset_contains(all, w[m]);
            let m2 = choose|m2: int| 0 <= m2 < all.len() && all[m2] == w[m];
            assert(all[m2].1 == a@);
            lemma_last_index_of(nodes@, a@);
        }
        let idx = last_index(nodes, &a);
        proof {
            lemma_last_index_of(nodes@, a@);
        }
        r.push((idx, counts[j].1));
        j = j + 1;
    }
    proof {
        let ns = nodes@;
        assert forall|i: int, q: int| 0 <= i < q < r@.len() implies bytes_lt(
            ns[(#[trigger] r@[i]).0 as int].addr@,
            ns[(#[trigger] r@[q]).0 as int].addr@,
        ) by {
            assert(counts@[i].0@ == ns[r@[i].0 as int].addr@);
            assert(counts@[q].0@ == ns[r@[q].0 as int].addr@);
        }
        assert forall|m: int| 0 <= m < w.len() implies seated(r@, ns, (#[trigger] w[m]).1) by {
            assert(lists_address(counts@, w[m].1));
            let q = choose|q: int| 0 <= q < counts@.len() && counts@[q].0@ == w[m].1;
            assert(ns[r@[q].0 as int].addr@ == counts@[q].0@);
        }
    }
    r
}

/// The voting power that the genesis tool gives each validator it makes.
pub const GENESIS_VOTING_POWER: u64 = 2000;

/// The initial nodes: the first `num_genesis_validator` of the validators;
/// `None` where there are fewer validators than that.
pub fn initial_nodes(nodes: &[GenesisNode], num_genesis_validator: usize) -> (r: Option<
    Vec<GenesisNode>,
>)
    ensures
        r is None <==> num_genesis_validator > nodes@.len(),
        r matches Some(v) ==> v@ == nodes@.take(num_genesis_validator as int),
{
    if num_genesis_validator > nodes.len() {
        return None;
    }
    let mut v: Vec<GenesisNode> = Vec::new();
    let mut i: usize = 0;
    while i < num_genesis_validator
        invariant
            i <= num_genesis_validator <= nodes@.len(),
            v@ == nodes@.take(i as int),
        decreases num_genesis_validator - i,
    {
        v.push(nodes[i]);
        proof {
            assert(nodes@.take(i + 1) =~= nodes@.take(i as int).push(nodes@[i as int]));
        }
        i = i + 1;
    }
    Some(v)
}

/// Elects the genesis committee. Each node holds one ticket for each unit
/// of its voting power, the SHA3-256 hash of its address, the seed and the
/// unit's number as eight big-endian bytes; the tickets elect the committee
/// as `elect_from_tickets` says.
pub fn elect_genesis_committee(
    initial_nodes: &[GenesisNode],
    initial_seed: &[u8],
    max_committee_size: usize,
) -> (r: Vec<(usize, u64)>)
    ensures
        is_committee(r@, initial_nodes@, initial_seed@, max_committee_size as nat),
{
    let tickets = build_tickets(initial_nodes, initial_seed);
    proof {
        lemma_ticket_owners(initial_nodes@, initial_seed@);
    }
    elect_from_tickets(initial_nodes, tickets, max_committee_size)
}


/// The total voting power of the nodes.
pub open spec fn total_power(nodes: Seq<GenesisNode>) -> nat
    decreases nodes.len(),
{
    if nodes.len() == 0 {
        0
    } else {
        total_power(nodes.drop_last()) + nodes.last().voting_power as nat
    }
}

/// The seats of a committee, all entries together.
pub open spec fn seat_total(r: Seq<(usize, u64)>) -> nat
    decreases r.len(),
{
    if r.len() == 0 {
        0
    } else {
        seat_total(r.drop_last()) + r.last().1 as nat
    }
}

/// How many tickets the addresses hold, all together.
spec fn sum_counts(w: Seq<Ticket>, addrs: Seq<Seq<u8>>) -> nat
    decreases addrs.len(),
{
    if addrs.len() == 0 {
        0
    } else {
        sum_counts(w, addrs.drop_last()) + count_of(w, addrs.last())
    }
}

/// How many of the addresses are `a`.
spec fn hits(a: Seq<u8>, addrs: Seq<Seq<u8>>) -> nat
    decreases addrs.len(),
{
    if addrs.len() == 0 {
        0
    } else {
        hits(a, addrs.drop_last()) + if addrs.last() == a {
            1nat
        } else {
            0nat
        }
    }
}

proof fn lemma_all_tickets_len(nodes: Seq<GenesisNode>, seed: Seq<u8>)
    ensures
        all_tickets(nodes, seed).len() == total_power(nodes),
    decreases nodes.len(),
{
    if nodes.len() > 0 {
        lemma_all_tickets_len(nodes.drop_last(), seed);
    }
}

proof fn lemma_sum_counts_empty(w: Seq<Ticket>, addrs: Seq<Seq<u8>>)
    requires
        w.len() == 0,
    ensures
        sum_counts(w, addrs) == 0,
    decreases addrs.len(),
{
    if addrs.len() > 0 {
        lemma_sum_counts_empty(w, addrs.drop_last());
    }
}

proof fn lemma_sum_counts_push(w: Seq<Ticket>, t: Ticket, addrs: Seq<Seq<u8>>)
    ensures
        sum_counts(w.push(t), addrs) == sum_counts(w, addrs) + hits(t.1, addrs),
    decreases addrs.len(),
{
    if addrs.len() > 0 {
        lemma_sum_counts_push(w, t, addrs.drop_last());
        assert(w.push(t).drop_last() =~= w);
    }
}

proof fn lemma_hits_one(a: Seq<u8>, addrs: Seq<Seq<u8>>)
    requires
        addrs.no_duplicates(),
        addrs.contains(a),
    ensures
        hits(a, addrs) == 1,
    decreases addrs.len(),
{
    let init = addrs.drop_last();
    assert(init.no_duplicates());
    if addrs.last() == a {
        assert(!init.contains(a)) by {
            if init.contains(a) {
                let i = choose|i: int| 0 <= i < init.len() && init[i] == a;
                assert(addrs[i] == addrs[addrs.len() - 1]);
            }
        }
        lemma_hits_zero(a, init);
    } else {
        let i = choose|i: int| 0 <= i < addrs.len() && addrs[i] == a;
        assert(i < addrs.len() - 1);
        assert(init[i] == a);
        lemma_hits_one(a, init);
    }
}

proof fn lemma_hits_zero(a: Seq<u8>, addrs: Seq<Seq<u8>>)
    requires
        !addrs.contains(a),
    ensures
        hits(a, addrs) == 0,
    decreases addrs.len(),
{
    if addrs.len() > 0 {
        let init = addrs.drop_last();
        assert(!init.contains(a)) by {
            if init.contains(a) {
                let i = choose|i: int| 0 <= i < init.len() && init[i] == a;
                assert(addrs[i] == a);
            }
        }
        assert(addrs[addrs.len() - 1] == addrs.last());
        lemma_hits_zero(a, init);
    }
}

/// Distinct addresses that hold all the tickets hold as many tickets as
/// there are.
proof fn lemma_sum_counts_all(w: Seq<Ticket>, addrs: Seq<Seq<u8>>)
    requires
        addrs.no_duplicates(),
        forall|m: int| 0 <= m < w.len() ==> addrs.contains(#[trigger] w[m].1),
    ensures
        sum_counts(w, addrs) == w.len(),
    decreases w.len(),
{
    if w.len() == 0 {
        lemma_sum_counts_empty(w, addrs);
    } else {
        let init = w.drop_last();
        let t = w.last();
        assert(w =~= init.push(t));
        assert forall|m: int| 0 <= m < init.len() implies addrs.contains(#[trigger] init[m].1) by {
            assert(init[m] == w[m]);
        }
        lemma_sum_counts_all(init, addrs);
        lemma_sum_counts_push(init, t, addrs);
        assert(addrs.contains(w[w.len() - 1].1));
        lemma_hits_one(t.1, addrs);
    }
}

proof fn lemma_seat_total_counts(r: Seq<(usize, u64)>, nodes: Seq<GenesisNode>, w: Seq<Ticket>)
    requires
        forall|i: int|
            0 <= i < r.len() ==> (#[trigger] r[i]).1 == count_of(w, nodes[r[i].0 as int].addr@),
    ensures
        seat_total(r) == sum_counts(w, Seq::new(r.len(), |i: int| nodes[r[i].0 as int].addr@)),
    decreases r.len(),
{
    let addrs = Seq::new(r.len(), |i: int| nodes[r[i].0 as int].addr@);
    if r.len() > 0 {
        let init = r.drop_last();
        assert forall|i: int| 0 <= i < init.len() implies (#[trigger] init[i]).1 == count_of(
            w,
            nodes[init[i].0 as int].addr@,
        ) by {
            assert(init[i] == r[i]);
        }
        lemma_seat_total_counts(init, nodes, w);
        assert(addrs.drop_last() =~= Seq::new(init.len(), |i: int| nodes[init[i].0 as int].addr@));
        assert(r.last() == r[r.len() - 1]);
    }
}

/// The seats of the committee that tickets elect add up to the committee
/// size: at least one, and at most the number of tickets.
pub proof fn lemma_committee_of_seats(
    r: Seq<(usize, u64)>,
    nodes: Seq<GenesisNode>,
    ts: Seq<Ticket>,
    k: nat,
)
    requires
        committee_of(r, nodes, ts, k),
    ensures
        seat_total(r) == seats(ts.len(), k),
{
    let w = winning(ts, k);
    let s = ts.sort_by(ticket_order());
    lemma_ticket_leq_total();
    ts.lemma_sort_by_ensures(ticket_order());
    ts.to_multiset_ensures();
    s.to_multiset_ensures();
    assert(s.len() == ts.len());
    assert(w.len() == seats(ts.len(), k));
    let addrs = Seq::new(r.len(), |i: int| nodes[r[i].0 as int].addr@);
    assert forall|i: int| 0 <= i < r.len() implies (#[trigger] r[i]).1 == count_of(
        w,
        nodes[r[i].0 as int].addr@,
    ) by {}
    lemma_seat_total_counts(r, nodes, w);
    assert(addrs.no_duplicates()) by {
        assert forall|i: int, j: int|
            0 <= i < addrs.len() && 0 <= j < addrs.len() && i != j implies addrs[i] != addrs[j] by {
            if i < j {
                assert(bytes_lt(nodes[r[i].0 as int].addr@, nodes[r[j].0 as int].addr@));
                lemma_bytes_lt_trichotomy(addrs[i], addrs[j]);
            } else {
                assert(bytes_lt(nodes[r[j].0 as int].addr@, nodes[r[i].0 as int].addr@));
                lemma_bytes_lt_trichotomy(addrs[j], addrs[i]);
            }
        }
    }
    assert forall|m: int| 0 <= m < w.len() implies addrs.contains(#[trigger] w[m].1) by {
        assert(seated(r, nodes, w[m].1));
        let i = choose|i: int| 0 <= i < r.len() && nodes[(#[trigger] r[i]).0 as int].addr@ == w[m].1;
        assert(addrs[i] == w[m].1);
    }
    lemma_sum_counts_all(w, addrs);
}

/// The seats of the elected genesis committee add up to the committee size:
/// at least one, and at most the total voting power of the nodes.
pub proof fn lemma_committee_seats(
    r: Seq<(usize, u64)>,
    nodes: Seq<GenesisNode>,
    seed: Seq<u8>,
    k: nat,
)
    requires
        is_committee(r, nodes, seed, k),
    ensures
        seat_total(r) == seats(total_power(nodes), k),
{
    lemma_committee_of_seats(r, nodes, all_tickets(nodes, seed), k);
    lemma_all_tickets_len(nodes, seed);
}

/// The tickets of a node, as a multiset.
spec fn node_ticket_set(n: GenesisNode, seed: Seq<u8>) -> Multiset<Ticket> {
    node_tickets(n.addr@, seed, n.voting_power as nat).to_multiset()
}

/// The tickets of all nodes, as a multiset.
spec fn ticket_set(nodes: Seq<GenesisNode>, seed: Seq<u8>) -> Multiset<Ticket>
    decreases nodes.len(),
{
    if nodes.len() == 0 {
        Multiset::empty()
    } else {
        ticket_set(nodes.drop_last(), seed).add(node_ticket_set(nodes.last(), seed))
    }
}

proof fn lemma_ticket_set(nodes: Seq<GenesisNode>, seed: Seq<u8>)
    ensures
        all_tickets(nodes, seed).to_multiset() == ticket_set(nodes, seed),
    decreases nodes.len(),
{
    broadcast use vstd::multiset::group_multiset_axioms;

    if nodes.len() == 0 {
        let e = all_tickets(nodes, seed);
        assert(e =~= Seq::<Ticket>::empty());
        e.to_multiset_ensures();
        vstd::multiset::lemma_multiset_empty_len(e.to_multiset());
    } else {
        lemma_ticket_set(nodes.drop_last(), seed);
        vstd::seq_lib::lemma_multiset_commutative(
            all_tickets(nodes.drop_last(), seed),
            node_tickets(nodes.last().addr@, seed, nodes.last().voting_power as nat),
        );
    }
}

proof fn lemma_ticket_set_remove(nodes: Seq<GenesisNode>, seed: Seq<u8>, j: int)
    requires
        0 <= j < nodes.len(),
    ensures
        ticket_set(nodes, seed) == ticket_set(nodes.remove(j), seed).add(
            node_ticket_set(nodes[j], seed),
        ),
    decreases nodes.len(),
{
    broadcast use vstd::multiset::group_multiset_axioms;

    if j == nodes.len() - 1 {
        assert(nodes.remove(j) =~= nodes.drop_last());
    } else {
        let init = nodes.drop_last();
        lemma_ticket_set_remove(init, seed, j);
        assert(nodes.remove(j).drop_last() =~= init.remove(j));
        assert(nodes.remove(j).last() == nodes.last());
        assert(init[j] == nodes[j]);
        let a = ticket_set(init.remove(j), seed);
        let x = node_ticket_set(nodes[j], seed);
        let y = node_ticket_set(nodes.last(), seed);
        assert(a.add(x).add(y) =~= a.add(y).add(x));
    }
}

proof fn lemma_ticket_set_permutation(n1: Seq<GenesisNode>, n2: Seq<GenesisNode>, seed: Seq<u8>)
    requires
        n1.to_multiset() == n2.to_multiset(),
    ensures
        ticket_set(n1, seed) == ticket_set(n2, seed),
    decreases n1.len(),
{
    broadcast use vstd::multiset::group_multiset_axioms;
    broadcast use vstd::seq_lib::group_to_multiset_ensures;

    if n1.len() == 0 {
        n1.to_multiset_ensures();
        n2.to_multiset_ensures();
        assert(n2.len() == 0);
    } else {
        let x = n1.last();
        assert(n1 =~= n1.drop_last().push(x));
        assert(n1.contains(x)) by {
            assert(n1[n1.len() - 1] == x);
        }
        assert(n2.to_multiset().count(x) > 0);
        assert(n2.contains(x));
        let j = choose|j: int| 0 <= j < n2.len() && n2[j] == x;
        assert(n2.remove(j).to_multiset() == n2.to_multiset().remove(x));
        assert(n1.drop_last().push(x).to_multiset() == n1.drop_last().to_multiset().insert(x));
        assert(n1.drop_last().to_multiset() =~= n2.remove(j).to_multiset());
        lemma_ticket_set_permutation(n1.drop_last(), n2.remove(j), seed);
        lemma_ticket_set_remove(n2, seed, j);
    }
}

/// Two strictly increasing address sequences with the same addresses are
/// the same sequence.
proof fn lemma_increasing_unique(a: Seq<Seq<u8>>, b: Seq<Seq<u8>>)
    requires
        forall|i: int, j: int| 0 <= i < j < a.len() ==> bytes_lt(#[trigger] a[i], #[trigger] a[j]),
        forall|i: int, j: int| 0 <= i < j < b.len() ==> bytes_lt(#[trigger] b[i], #[trigger] b[j]),
        forall|x: Seq<u8>| a.contains(x) <==> b.contains(x),
    ensures
        a == b,
    decreases a.len(),
{
    if a.len() == 0 {
        if b.len() > 0 {
            assert(b.contains(b[0]));
        }
        assert(a =~= b);
    } else {
        assert(a.contains(a[0]));
        assert(b.len() > 0);
        assert(b.contains(b[0]));
        let i = choose|i: int| 0 <= i < a.len() && a[i] == b[0];
        let j = choose|j: int| 0 <= j < b.len() && b[j] == a[0];
        if i > 0 && j > 0 {
            assert(bytes_lt(a[0], a[i]));
            assert(bytes_lt(b[0], b[j]));
            lemma_bytes_lt_trichotomy(a[0], b[0]);
        } else if i > 0 {
            assert(bytes_lt(a[0], a[i]));
            lemma_bytes_lt_trichotomy(a[0], b[0]);
        } else if j > 0 {
            assert(bytes_lt(b[0], b[j]));
            lemma_bytes_lt_trichotomy(a[0], b[0]);
        }
        assert(a[0] == b[0]);
        let a1 = a.drop_first();
        let b1 = b.drop_first();
        assert forall|x: Seq<u8>| a1.contains(x) <==> b1.contains(x) by {
            if a1.contains(x) {
                let p = choose|p: int| 0 <= p < a1.len() && a1[p] == x;
                assert(a[p + 1] == x);
                assert(bytes_lt(a[0], a[p + 1]));
                lemma_bytes_lt_trichotomy(a[0], x);
                assert(b.contains(x));
                let q = choose|q: int| 0 <= q < b.len() && b[q] == x;
                assert(q != 0);
                assert(b1[q - 1] == x);
            }
            if b1.contains(x) {
                let p = choose|p: int| 0 <= p < b1.len() && b1[p] == x;
                assert(b[p + 1] == x);
                assert(bytes_lt(b[0], b[p + 1]));
                lemma_bytes_lt_trichotomy(b[0], x);
                assert(a.contains(x));
                let q = choose|q: int| 0 <= q < a.len() && a[q] == x;
                assert(q != 0);
                assert(a1[q - 1] == x);
            }
        }
        assert forall|p: int, q: int| 0 <= p < q < a1.len() implies bytes_lt(
            #[trigger] a1[p],
            #[trigger] a1[q],
        ) by {
            assert(bytes_lt(a[p + 1], a[q + 1]));
        }
        assert forall|p: int, q: int| 0 <= p < q < b1.len() implies bytes_lt(
            #[trigger] b1[p],
            #[trigger] b1[q],
        ) by {
            assert(bytes_lt(b[p + 1], b[q + 1]));
        }
        lemma_increasing_unique(a1, b1);
        assert(a =~= b) by {
            assert forall|p: int| 0 <= p < a.len() implies a[p] == b[p] by {
                if p > 0 {
                    assert(a[p] == a1[p - 1]);
                    assert(b[p] == b1[p - 1]);
                }
            }
        }
    }
}

/// The committee as addresses and their seats.
pub open spec fn seat_addresses(r: Seq<(usize, u64)>, nodes: Seq<GenesisNode>) -> Seq<
    (Seq<u8>, u64),
> {
    r.map_values(|e: (usize, u64)| (nodes[e.0 as int].addr@, e.1))
}

proof fn lemma_committee_addresses(r: Seq<(usize, u64)>, nodes: Seq<GenesisNode>, w: Seq<Ticket>, x: Seq<u8>)
    requires
        forall|i: int|
            0 <= i < r.len() ==> {
                &&& (#[trigger] r[i]).0 < nodes.len()
                &&& r[i].1 == count_of(w, nodes[r[i].0 as int].addr@)
                &&& r[i].1 > 0
            },
        forall|m: int| 0 <= m < w.len() ==> seated(r, nodes, (#[trigger] w[m]).1),
    ensures
        Seq::new(r.len(), |i: int| nodes[r[i].0 as int].addr@).contains(x) <==> count_of(w, x) > 0,
{
    let a = Seq::new(r.len(), |i: int| nodes[r[i].0 as int].addr@);
    if a.contains(x) {
        let i = choose|i: int| 0 <= i < a.len() && a[i] == x;
        assert(r[i].1 > 0);
    }
    if count_of(w, x) > 0 {
        lemma_count_of_bound(w, x);
        let m = choose|m: int| 0 <= m < w.len() && w[m].1 == x;
        assert(seated(r, nodes, w[m].1));
        let i = choose|i: int| 0 <= i < r.len() && nodes[(#[trigger] r[i]).0 as int].addr@ == w[m].1;
        assert(a[i] == x);
    }
}

/// The committee does not depend on the order of the nodes: nodes in
/// another order elect the same addresses, with the same seats, in the same
/// order.
pub proof fn lemma_committee_permutation(
    r1: Seq<(usize, u64)>,
    r2: Seq<(usize, u64)>,
    nodes1: Seq<GenesisNode>,
    nodes2: Seq<GenesisNode>,
    seed: Seq<u8>,
    k: nat,
)
    requires
        nodes1.to_multiset() == nodes2.to_multiset(),
        is_committee(r1, nodes1, seed, k),
        is_committee(r2, nodes2, seed, k),
    ensures
        seat_addresses(r1, nodes1) == seat_addresses(r2, nodes2),
{
    let t1 = all_tickets(nodes1, seed);
    let t2 = all_tickets(nodes2, seed);
    lemma_ticket_set(nodes1, seed);
    lemma_ticket_set(nodes2, seed);
    lemma_ticket_set_permutation(nodes1, nodes2, seed);
    lemma_ticket_leq_total();
    t1.lemma_sort_by_ensures(ticket_order());
    t2.lemma_sort_by_ensures(ticket_order());
    vstd::seq_lib::lemma_sorted_unique(
        t1.sort_by(ticket_order()),
        t2.sort_by(ticket_order()),
        ticket_order(),
    );
    let w = winning(t1, k);
    assert(w == winning(t2, k));
    let a1 = Seq::new(r1.len(), |i: int| nodes1[r1[i].0 as int].addr@);
    let a2 = Seq::new(r2.len(), |i: int| nodes2[r2[i].0 as int].addr@);
    assert forall|x: Seq<u8>| a1.contains(x) <==> a2.contains(x) by {
        lemma_committee_addresses(r1, nodes1, w, x);
        lemma_committee_addresses(r2, nodes2, w, x);
    }
    assert forall|i: int, j: int| 0 <= i < j < a1.len() implies bytes_lt(
        #[trigger] a1[i],
        #[trigger] a1[j],
    ) by {
        assert(bytes_lt(nodes1[r1[i].0 as int].addr@, nodes1[r1[j].0 as int].addr@));
    }
    assert forall|i: int, j: int| 0 <= i < j < a2.len() implies bytes_lt(
        #[trigger] a2[i],
        #[trigger] a2[j],
    ) by {
        assert(bytes_lt(nodes2[r2[i].0 as int].addr@, nodes2[r2[j].0 as int].addr@));
    }
    lemma_increasing_unique(a1, a2);
    assert(a1.len() == a2.len());
    assert(seat_addresses(r1, nodes1) =~= seat_addresses(r2, nodes2)) by {
        assert forall|i: int| 0 <= i < r1.len() implies seat_addresses(r1, nodes1)[i]
            == seat_addresses(r2, nodes2)[i] by {
            assert(a1[i] == a2[i]);
            assert(r1[i].1 == count_of(w, a1[i]));
            assert(r2[i].1 == count_of(w, a2[i]));
        }
    }
}

/// The number that bytes denote, most significant first.
pub open spec fn be_value(s: Seq<u8>) -> nat
    decreases s.len(),
{
    if s.len() == 0 {
        0
    } else {
        be_value(s.drop_last()) * 256 + s.last() as nat
    }
}

/// The nonce bytes of a ticket are the whole eight-byte big-endian writing
/// of the nonce: they denote the nonce, byte `i` is the nonce's digit of
/// weight `256^(7 - i)`, and so distinct nonces of one node hash distinct
/// inputs.
pub proof fn lemma_be_bytes(x: u64, y: u64, addr: Seq<u8>, seed: Seq<u8>)
    ensures
        be_bytes(x).len() == 8,
        be_value(be_bytes(x)) == x,
        be_bytes(x)[0] == (x as int / 0x100000000000000) % 256,
        be_bytes(x)[1] == (x as int / 0x1000000000000) % 256,
        be_bytes(x)[2] == (x as int / 0x10000000000) % 256,
        be_bytes(x)[3] == (x as int / 0x100000000) % 256,
        be_bytes(x)[4] == (x as int / 0x1000000) % 256,
        be_bytes(x)[5] == (x as int / 0x10000) % 256,
        be_bytes(x)[6] == (x as int / 0x100) % 256,
        be_bytes(x)[7] == x as int % 256,
        x != y ==> addr + seed + be_bytes(x) != addr + seed + be_bytes(y),
{
    let b = be_bytes(x);
    let b0 = ((x >> 56u64) & 0xffu64) as u8;
    let b1 = ((x >> 48u64) & 0xffu64) as u8;
    let b2 = ((x >> 40u64) & 0xffu64) as u8;
    let b3 = ((x >> 32u64) & 0xffu64) as u8;
    let b4 = ((x >> 24u64) & 0xffu64) as u8;
    let b5 = ((x >> 16u64) & 0xffu64) as u8;
    let b6 = ((x >> 8u64) & 0xffu64) as u8;
    let b7 = ((x >> 0u64) & 0xffu64) as u8;
    assert(b[0] == b0 && b[1] == b1 && b[2] == b2 && b[3] == b3);
    assert(b[4] == b4 && b[5] == b5 && b[6] == b6 && b[7] == b7);
    assert(x as int == (((((((b0 as int) * 256 + b1 as int) * 256 + b2 as int) * 256 + b3 as int)
        * 256 + b4 as int) * 256 + b5 as int) * 256 + b6 as int) * 256 + b7 as int
        && b0 as int == (x as int / 0x100000000000000) % 256
        && b1 as int == (x as int / 0x1000000000000) % 256
        && b2 as int == (x as int / 0x10000000000) % 256
        && b3 as int == (x as int / 0x100000000) % 256
        && b4 as int == (x as int / 0x1000000) % 256
        && b5 as int == (x as int / 0x10000) % 256
        && b6 as int == (x as int / 0x100) % 256
        && b7 as int == x as int % 256) by (bit_vector)
        requires
            b0 == ((x >> 56u64) & 0xffu64) as u8,
            b1 == ((x >> 48u64) & 0xffu64) as u8,
            b2 == ((x >> 40u64) & 0xffu64) as u8,
            b3 == ((x >> 32u64) & 0xffu64) as u8,
            b4 == ((x >> 24u64) & 0xffu64) as u8,
            b5 == ((x >> 16u64) & 0xffu64) as u8,
            b6 == ((x >> 8u64) & 0xffu64) as u8,
            b7 == ((x >> 0u64) & 0xffu64) as u8,
    ;
    reveal_with_fuel(be_value, 9);
    assert(b.take(1).drop_last() =~= b.take(0));
    assert(b.take(2).drop_last() =~= b.take(1));
    assert(b.take(3).drop_last() =~= b.take(2));
    assert(b.take(4).drop_last() =~= b.take(3));
    assert(b.take(5).drop_last() =~= b.take(4));
    assert(b.take(6).drop_last() =~= b.take(5));
    assert(b.take(7).drop_last() =~= b.take(6));
    assert(b.drop_last() =~= b.take(7));
    assert(b.take(0) =~= Seq::<u8>::empty());
    if x != y {
        let p = addr + seed;
        let by = be_bytes(y);
        let c0 = ((y >> 56u64) & 0xffu64) as u8;
        let c1 = ((y >> 48u64) & 0xffu64) as u8;
        let c2 = ((y >> 40u64) & 0xffu64) as u8;
        let c3 = ((y >> 32u64) & 0xffu64) as u8;
        let c4 = ((y >> 24u64) & 0xffu64) as u8;
        let c5 = ((y >> 16u64) & 0xffu64) as u8;
        let c6 = ((y >> 8u64) & 0xffu64) as u8;
        let c7 = ((y >> 0u64) & 0xffu64) as u8;
        assert(by[0] == c0 && by[1] == c1 && by[2] == c2 && by[3] == c3);
        assert(by[4] == c4 && by[5] == c5 && by[6] == c6 && by[7] == c7);
        if p + b == p + by {
            assert(b =~= by) by {
                assert forall|i: int| 0 <= i < 8 implies b[i] == by[i] by {
                    assert((p + b)[p.len() + i] == b[i]);
                    assert((p + by)[p.len() + i] == by[i]);
                }
            }
            assert(x == y) by (bit_vector)
                requires
                    ((x >> 56u64) & 0xffu64) as u8 == ((y >> 56u64) & 0xffu64) as u8,
                    ((x >> 48u64) & 0xffu64) as u8 == ((y >> 48u64) & 0xffu64) as u8,
                    ((x >> 40u64) & 0xffu64) as u8 == ((y >> 40u64) & 0xffu64) as u8,
                    ((x >> 32u64) & 0xffu64) as u8 == ((y >> 32u64) & 0xffu64) as u8,
                    ((x >> 24u64) & 0xffu64) as u8 == ((y >> 24u64) & 0xffu64) as u8,
                    ((x >> 16u64) & 0xffu64) as u8 == ((y >> 16u64) & 0xffu64) as u8,
                    ((x >> 8u64) & 0xffu64) as u8 == ((y >> 8u64) & 0xffu64) as u8,
                    ((x >> 0u64) & 0xffu64) as u8 == ((y >> 0u64) & 0xffu64) as u8,
            ;
        }
    }
}

} // verus!
