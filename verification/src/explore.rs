//! Depth-bounded neighborhood discovery over the transaction graph.
//!
//! Starting from a set of seed addresses, the search repeatedly follows the
//! `from -> to` edges of the transaction records. A call at level `l` above
//! the bound [`crate::LIMIT`] contributes nothing; otherwise it contributes
//! every peer it was given together with everything found from that peer's
//! direct targets one level deeper. The bound therefore counts hops from the
//! starting seeds, and an address first reached beyond it is excluded.
use vstd::prelude::*;

use crate::LIMIT;

verus! {

/// One directed transaction: `value` flowed from address `from` to `to`.
pub struct TxRecord {
    pub from: String,
    pub to: String,
    pub value: u32,
}

/// The addresses of a sequence of strings, as mathematical character
/// sequences.
pub open spec fn addr_seq(s: Seq<String>) -> Seq<Seq<char>> {
    s.map_values(|x: String| x@)
}

/// The set of addresses held by a sequence of strings.
pub open spec fn addr_set(s: Seq<String>) -> Set<Seq<char>> {
    addr_seq(s).to_set()
}

/// Pointwise description of [`addr_seq`]: position `k` holds the address of
/// the string at position `k`.
pub proof fn lemma_addr_seq_index(s: Seq<String>)
    ensures
        addr_seq(s).len() == s.len(),
        forall|k: int| 0 <= k < s.len() ==> addr_seq(s)[k] == #[trigger] s[k]@,
{
}

/// No address occurs twice.
pub open spec fn distinct_addrs(s: Seq<String>) -> bool {
    forall|i: int, j: int| 0 <= i < j < s.len() ==> s[i]@ != s[j]@
}

/// Taking one element more appends exactly that element.
proof fn lemma_take_push<A>(s: Seq<A>, j: int)
    requires
        0 <= j < s.len(),
    ensures
        s.take(j + 1) == s.take(j).push(s[j]),
{
    assert(s.take(j + 1) =~= s.take(j).push(s[j]));
}

/// Appending a string appends its address.
proof fn lemma_addr_seq_push(s: Seq<String>, x: String)
    ensures
        addr_seq(s.push(x)) == addr_seq(s).push(x@),
{
    assert(addr_seq(s.push(x)) =~= addr_seq(s).push(x@));
}

/// Appending a string inserts its address into the address set.
proof fn lemma_addr_set_push(s: Seq<String>, x: String)
    ensures
        addr_set(s.push(x)) == addr_set(s).insert(x@),
{
    lemma_addr_seq_push(s, x);
    let t = addr_seq(s);
    let u = t.push(x@);
    assert forall|a: Seq<char>| u.to_set().contains(a) implies t.to_set().insert(
        x@,
    ).contains(a) by {
        let k = choose|k: int| 0 <= k < u.len() && u[k] == a;
        if k < t.len() {
            assert(t[k] == a);
        } else {
            assert(a == x@);
        }
    }
    assert forall|a: Seq<char>| t.to_set().insert(x@).contains(a) implies u.to_set().contains(
        a,
    ) by {
        if a == x@ {
            assert(u[t.len() as int] == a);
        } else {
            let k = choose|k: int| 0 <= k < t.len() && t[k] == a;
            assert(u[k] == a);
        }
    }
    assert(u.to_set() =~= t.to_set().insert(x@));
}

/// The `to` addresses of all records whose `from` equals `from`, in record
/// order.
pub open spec fn targets_of(records: Seq<TxRecord>, from: Seq<char>) -> Seq<Seq<char>>
    decreases records.len(),
{
    if records.len() == 0 {
        Seq::empty()
    } else {
        let rest = targets_of(records.drop_last(), from);
        if records.last().from@ == from {
            rest.push(records.last().to@)
        } else {
            rest
        }
    }
}

/// Appends `a` unless it is already present.
pub open spec fn insert_addr(acc: Seq<Seq<char>>, a: Seq<char>) -> Seq<Seq<char>> {
    if acc.contains(a) {
        acc
    } else {
        acc.push(a)
    }
}

/// Folds every address of `other` into `acc`, in order, keeping first
/// appearances.
pub open spec fn merge_addrs(acc: Seq<Seq<char>>, other: Seq<Seq<char>>) -> Seq<Seq<char>>
    decreases other.len(),
{
    if other.len() == 0 {
        acc
    } else {
        merge_addrs(insert_addr(acc, other.first()), other.drop_first())
    }
}

/// The search's accumulator after working through `peers` at `level`,
/// having already discovered `acc`: each peer is taken up in turn, then
/// everything found from its targets one level deeper.
pub open spec fn explore_acc(
    peers: Seq<Seq<char>>,
    records: Seq<TxRecord>,
    level: int,
    acc: Seq<Seq<char>>,
) -> Seq<Seq<char>>
    decreases LIMIT + 1 - level, peers.len(), 0int,
{
    if level > LIMIT || peers.len() == 0 {
        acc
    } else {
        let acc1 = insert_addr(acc, peers.first());
        let acc2 = merge_addrs(
            acc1,
            explore_order(targets_of(records, peers.first()), records, level + 1),
        );
        explore_acc(peers.drop_first(), records, level, acc2)
    }
}

/// The exact order in which the search discovers addresses: first
/// appearance first.
pub open spec fn explore_order(
    peers: Seq<Seq<char>>,
    records: Seq<TxRecord>,
    level: int,
) -> Seq<Seq<char>>
    decreases LIMIT + 1 - level, peers.len(), 1int,
{
    explore_acc(peers, records, level, Seq::empty())
}

/// Everything the search discovers from `peers` at recursion level `level`:
/// nothing above the depth bound, and otherwise the peers themselves
/// together with whatever is discovered from each peer's targets one level
/// deeper.
pub open spec fn reach(peers: Seq<Seq<char>>, records: Seq<TxRecord>, level: int) -> Set<
    Seq<char>,
>
    decreases LIMIT + 1 - level, peers.len(),
{
    if level > LIMIT || peers.len() == 0 {
        Set::empty()
    } else {
        reach(peers.drop_last(), records, level).insert(peers.last()).union(
            reach(targets_of(records, peers.last()), records, level + 1),
        )
    }
}

/// Whether the address list holds `x`.
pub fn contains_addr(v: &Vec<String>, x: &String) -> (r: bool)
    ensures
        r == addr_set(v@).contains(x@),
{
    let n = v.len();
    let mut i: usize = 0;
    while i < n
        invariant
            i <= n,
            n == v@.len(),
            forall|k: int| 0 <= k < i ==> v@[k]@ != x@,
        decreases n - i,
    {
        if v[i] == *x {
            proof {
                assert(addr_seq(v@)[i as int] == x@);
            }
            return true;
        }
        i = i + 1;
    }
    proof {
        assert(forall|k: int| 0 <= k < v@.len() ==> addr_seq(v@)[k] == #[trigger] v@[k]@);
    }
    false
}

/// Appends `x` unless its address is already present; the address set grows
/// by exactly `x`'s address and distinctness is kept.
fn insert_unique(acc: &mut Vec<String>, x: &String)
    requires
        distinct_addrs(old(acc)@),
    ensures
        addr_seq(final(acc)@) == insert_addr(addr_seq(old(acc)@), x@),
        addr_set(final(acc)@) == addr_set(old(acc)@).insert(x@),
        distinct_addrs(final(acc)@),
{
    if !contains_addr(acc, x) {
        acc.push(x.clone());
        proof {
            lemma_addr_set_push(old(acc)@, *x);
            assert(acc@ == old(acc)@.push(*x));
            lemma_addr_seq_index(old(acc)@);
            lemma_addr_seq_push(old(acc)@, *x);
            assert(!addr_seq(old(acc)@).contains(x@));
        }
    } else {
        proof {
            assert(addr_set(acc@).insert(x@) =~= addr_set(acc@));
            assert(addr_seq(acc@).contains(x@));
        }
    }
}

/// Appends every address of `other` that is not yet present, in order.
fn merge_unique(acc: &mut Vec<String>, other: &Vec<String>)
    requires
        distinct_addrs(old(acc)@),
    ensures
        addr_seq(final(acc)@) == merge_addrs(addr_seq(old(acc)@), addr_seq(other@)),
        addr_set(final(acc)@) == addr_set(old(acc)@).union(addr_set(other@)),
        distinct_addrs(final(acc)@),
{
    let n = other.len();
    let mut j: usize = 0;
    proof {
        assert(addr_set(acc@) =~= addr_set(old(acc)@).union(addr_set(other@.take(0))));
        assert(addr_seq(other@).skip(0) =~= addr_seq(other@));
    }
    while j < n
        invariant
            j <= n,
            n == other@.len(),
            distinct_addrs(acc@),
            addr_set(acc@) == addr_set(old(acc)@).union(addr_set(other@.take(j as int))),
            merge_addrs(addr_seq(old(acc)@), addr_seq(other@)) == merge_addrs(
                addr_seq(acc@),
                addr_seq(other@).skip(j as int),
            ),
        decreases n - j,
    {
        let ghost acc_before = addr_seq(acc@);
        insert_unique(acc, &other[j]);
        proof {
            lemma_take_push(other@, j as int);
            lemma_addr_set_push(other@.take(j as int), other@[j as int]);
            assert(addr_set(acc@) =~= addr_set(old(acc)@).union(
                addr_set(other@.take(j as int + 1)),
            ));
            lemma_addr_seq_index(other@);
            assert(addr_seq(other@).skip(j as int).first() == other@[j as int]@);
            assert(addr_seq(other@).skip(j as int).drop_first() =~= addr_seq(other@).skip(
                j as int + 1,
            ));
            assert(merge_addrs(addr_seq(acc@), addr_seq(other@).skip(j as int + 1))
                == merge_addrs(acc_before, addr_seq(other@).skip(j as int)));
        }
        j = j + 1;
    }
    proof {
        assert(other@.take(n as int) =~= other@);
        assert(addr_seq(other@).skip(n as int) =~= Seq::<Seq<char>>::empty());
    }
}

/// The `to` addresses of all records whose `from` equals `x`, in record
/// order.
fn collect_targets(records: &Vec<TxRecord>, x: &String) -> (res: Vec<String>)
    ensures
        addr_seq(res@) == targets_of(records@, x@),
{
    let n = records.len();
    let mut res: Vec<String> = Vec::new();
    proof {
        assert(addr_seq(res@) =~= targets_of(records@.take(0), x@));
    }
    let mut i: usize = 0;
    while i < n
        invariant
            i <= n,
            n == records@.len(),
            addr_seq(res@) == targets_of(records@.take(i as int), x@),
        decreases n - i,
    {
        proof {
            assert(records@.take(i as int + 1).drop_last() =~= records@.take(i as int));
            assert(records@.take(i as int + 1).last() == records@[i as int]);
        }
        if records[i].from == *x {
            let ghost res_before = res@;
            res.push(records[i].to.clone());
            proof {
                lemma_addr_seq_push(res_before, records@[i as int].to);
                assert(res@ == res_before.push(records@[i as int].to));
                assert(addr_seq(res@) =~= targets_of(records@.take(i as int + 1), x@));
            }
        } else {
            proof {
                assert(addr_seq(res@) =~= targets_of(records@.take(i as int + 1), x@));
            }
        }
        i = i + 1;
    }
    proof {
        assert(records@.take(n as int) =~= records@);
    }
    res
}

/// Recursive engine of the search: discovers `reach(peers, records, level)`
/// and returns it without duplicates.
fn search_from(peers: &Vec<String>, records: &Vec<TxRecord>, level: u8) -> (res: Vec<String>)
    ensures
        addr_seq(res@) == explore_order(addr_seq(peers@), records@, level as int),
        addr_set(res@) == reach(addr_seq(peers@), records@, level as int),
        distinct_addrs(res@),
        level > LIMIT ==> res@.len() == 0,
        level <= LIMIT ==> forall|k: int|
            0 <= k < peers@.len() ==> addr_set(res@).contains(#[trigger] peers@[k]@),
    decreases LIMIT + 1 - level,
{
    if level > LIMIT {
        let res: Vec<String> = Vec::new();
        proof {
            assert(addr_seq(res@) =~= explore_order(addr_seq(peers@), records@, level as int));
        }
        return res;
    }
    let ghost ps = addr_seq(peers@);
    let n = peers.len();
    let mut acc: Vec<String> = Vec::new();
    proof {
        assert(ps.take(0) =~= Seq::<Seq<char>>::empty());
        assert(addr_set(acc@) =~= reach(ps.take(0), records@, level as int));
        assert(addr_seq(acc@) =~= Seq::<Seq<char>>::empty());
        assert(ps.skip(0) =~= ps);
    }
    let mut i: usize = 0;
    while i < n
        invariant
            i <= n,
            n == peers@.len(),
            level <= LIMIT,
            ps == addr_seq(peers@),
            distinct_addrs(acc@),
            addr_set(acc@) == reach(ps.take(i as int), records@, level as int),
            forall|k: int| 0 <= k < i ==> addr_set(acc@).contains(#[trigger] peers@[k]@),
            explore_order(ps, records@, level as int) == explore_acc(
                ps.skip(i as int),
                records@,
                level as int,
                addr_seq(acc@),
            ),
        decreases n - i,
    {
        let ghost acc0 = addr_seq(acc@);
        insert_unique(&mut acc, &peers[i]);
        let ghost acc1 = addr_seq(acc@);
        let tgts = collect_targets(records, &peers[i]);
        let sub = search_from(&tgts, records, level + 1);
        merge_unique(&mut acc, &sub);
        proof {
            lemma_addr_seq_index(peers@);
            lemma_take_push(ps, i as int);
            assert(ps.take(i as int + 1).drop_last() =~= ps.take(i as int));
            assert(ps.take(i as int + 1).last() == peers@[i as int]@);
            assert(addr_set(acc@) =~= reach(ps.take(i as int + 1), records@, level as int));
            assert(ps.skip(i as int).first() == peers@[i as int]@);
            assert(ps.skip(i as int).drop_first() =~= ps.skip(i as int + 1));
            assert(explore_acc(ps.skip(i as int), records@, level as int, acc0) == explore_acc(
                ps.skip(i as int + 1),
                records@,
                level as int,
                merge_addrs(
                    insert_addr(acc0, peers@[i as int]@),
                    explore_order(targets_of(records@, peers@[i as int]@), records@, level as int
                        + 1),
                ),
            ));
            assert(addr_seq(acc@) == merge_addrs(
                insert_addr(acc0, peers@[i as int]@),
                explore_order(targets_of(records@, peers@[i as int]@), records@, level as int + 1),
            ));
        }
        i = i + 1;
    }
    proof {
        assert(ps.take(n as int) =~= ps);
        assert(ps.skip(n as int) =~= Seq::<Seq<char>>::empty());
    }
    acc
}

/// Depth-bounded search for every address reachable from `peers` along the
/// records' `from -> to` edges, starting at recursion level `level`.
///
/// The result holds exactly the addresses of `reach(peers, records, level)`,
/// each once, in the order of first discovery — `explore_order`.
pub fn search_neighbours(peers: Vec<String>, records: Vec<TxRecord>, level: u8) -> (res: Vec<
    String,
>)
    ensures
        addr_seq(res@) == explore_order(addr_seq(peers@), records@, level as int),
        addr_set(res@) == reach(addr_seq(peers@), records@, level as int),
        distinct_addrs(res@),
        level > LIMIT ==> res@.len() == 0,
        level <= LIMIT ==> forall|k: int|
            0 <= k < peers@.len() ==> addr_set(res@).contains(#[trigger] peers@[k]@),
{
    search_from(&peers, &records, level)
}

/// Depth-bounded reachability around seed addresses.
pub struct NeighborhoodExplorer {}

impl NeighborhoodExplorer {
    /// Collects the vicinity of the seeds: every address reachable from them
    /// within the depth bound, the seeds themselves included, each address
    /// once.
    pub fn explore(seeds: Vec<String>, records: Vec<TxRecord>, depth: u8) -> (res: Vec<String>)
        ensures
            addr_seq(res@) == explore_order(addr_seq(seeds@), records@, depth as int),
            addr_set(res@) == reach(addr_seq(seeds@), records@, depth as int),
            distinct_addrs(res@),
            depth > LIMIT ==> res@.len() == 0,
            depth <= LIMIT ==> forall|k: int|
                0 <= k < seeds@.len() ==> addr_set(res@).contains(#[trigger] seeds@[k]@),
    {
        search_neighbours(seeds, records, depth)
    }
}

/// Position of the first vicinity address equal to `a`.
pub open spec fn addr_first_index(vic: Seq<String>, a: Seq<char>) -> int
    decreases vic.len(),
{
    if vic.len() == 0 {
        0
    } else if vic.first()@ == a {
        0
    } else {
        1 + addr_first_index(vic.drop_first(), a)
    }
}

/// The first matching position realizes `addr_first_index`.
pub proof fn lemma_afi(vic: Seq<String>, a: Seq<char>, i: int)
    requires
        0 <= i < vic.len(),
        forall|k: int| 0 <= k < i ==> vic[k]@ != a,
        vic[i]@ == a,
    ensures
        addr_first_index(vic, a) == i,
    decreases i,
{
    if i > 0 {
        assert(vic.first()@ != a);
        assert(forall|k: int| 0 <= k < i - 1 ==> vic.drop_first()[k]@ != a);
        lemma_afi(vic.drop_first(), a, i - 1);
    }
}

/// The position of an address known to lie in the vicinity.
pub fn find_addr(vic: &Vec<String>, a: &String) -> (r: usize)
    requires
        addr_set(vic@).contains(a@),
    ensures
        r < vic@.len(),
        vic@[r as int]@ == a@,
        r == addr_first_index(vic@, a@),
{
    let n = vic.len();
    let mut i: usize = 0;
    while i < n
        invariant
            i <= n,
            n == vic@.len(),
            forall|k: int| 0 <= k < i ==> vic@[k]@ != a@,
        decreases n - i,
    {
        if vic[i] == *a {
            proof {
                lemma_afi(vic@, a@, i as int);
            }
            return i;
        }
        i = i + 1;
    }
    proof {
        lemma_addr_seq_index(vic@);
        assert(false);
    }
    0
}

} // verus!
