//! The abstract model of the client registry: the stored records, read as a
//! map from client id to record, and the facts about that reading that the
//! registry's operations rely on.

use vstd::prelude::*;
use crate::client_manager::ClientInfo;

verus! {

/// No two stored records carry the same client id.
pub open spec fn ids_distinct(e: Seq<ClientInfo>) -> bool {
    forall|i: int, j: int| 0 <= i < j < e.len() ==> e[i].client_id@ != e[j].client_id@
}

/// Every stored client index lies in `0..bound`.
pub open spec fn indices_below(e: Seq<ClientInfo>, bound: int) -> bool {
    forall|i: int| 0 <= i < e.len() ==> 0 <= #[trigger] e[i].client_index < bound
}

/// No two stored records carry the same client index.
pub open spec fn indices_distinct(e: Seq<ClientInfo>) -> bool {
    forall|i: int, j: int| 0 <= i < j < e.len() ==> e[i].client_index != e[j].client_index
}

/// Some stored record carries the client id `id`.
pub open spec fn has_id(e: Seq<ClientInfo>, id: Seq<char>) -> bool {
    exists|i: int| 0 <= i < e.len() && e[i].client_id@ == id
}

/// The stored records read as a map from client id to record.
pub open spec fn table_map(e: Seq<ClientInfo>) -> Map<Seq<char>, ClientInfo>
    decreases e.len(),
{
    if e.len() == 0 {
        Map::empty()
    } else {
        table_map(e.drop_last()).insert(e.last().client_id@, e.last())
    }
}

/// The ids of the active clients of a registry map.
pub open spec fn active_ids(m: Map<Seq<char>, ClientInfo>) -> Set<Seq<char>> {
    m.dom().filter(|id: Seq<char>| m[id].active)
}

/// Number of active records in a sequence of records.
pub open spec fn count_active(e: Seq<ClientInfo>) -> nat
    decreases e.len(),
{
    if e.len() == 0 {
        0
    } else {
        count_active(e.drop_last()) + if e.last().active {
            1nat
        } else {
            0nat
        }
    }
}

/// Sum of `f` over a sequence of records.
pub open spec fn seq_total(e: Seq<ClientInfo>, f: spec_fn(ClientInfo) -> int) -> int
    decreases e.len(),
{
    if e.len() == 0 {
        0
    } else {
        seq_total(e.drop_last(), f) + f(e.last())
    }
}

/// Sum of `f` over the records of a finite registry map.
pub open spec fn map_total(m: Map<Seq<char>, ClientInfo>, f: spec_fn(ClientInfo) -> int) -> int
    decreases m.len(),
    when m.dom().finite()
{
    if m.dom().len() == 0 {
        0
    } else {
        let k = m.dom().choose();
        f(m[k]) + map_total(m.remove(k), f)
    }
}

/// The domain of the map is exactly the set of stored ids, and it is finite.
pub proof fn lemma_table_dom(e: Seq<ClientInfo>)
    ensures
        table_map(e).dom().finite(),
        forall|id: Seq<char>| #[trigger] table_map(e).contains_key(id) <==> has_id(e, id),
    decreases e.len(),
{
    if e.len() > 0 {
        let p = e.drop_last();
        lemma_table_dom(p);
        assert forall|id: Seq<char>| #[trigger] table_map(e).contains_key(id) <==> has_id(e, id) by {
            if has_id(e, id) {
                let i = choose|i: int| 0 <= i < e.len() && e[i].client_id@ == id;
                if i < e.len() - 1 {
                    assert(p[i] == e[i]);
                    assert(has_id(p, id));
                }
            }
            if has_id(p, id) {
                let i = choose|i: int| 0 <= i < p.len() && p[i].client_id@ == id;
                assert(e[i] == p[i]);
            }
        }
    }
}

/// With distinct ids, the map sends each stored id to its record.
pub proof fn lemma_table_value(e: Seq<ClientInfo>, i: int)
    requires
        ids_distinct(e),
        0 <= i < e.len(),
    ensures
        table_map(e).contains_key(e[i].client_id@),
        table_map(e)[e[i].client_id@] == e[i],
    decreases e.len(),
{
    let p = e.drop_last();
    if i < e.len() - 1 {
        assert(ids_distinct(p));
        lemma_table_value(p, i);
        assert(p[i] == e[i]);
    }
}

/// With distinct ids, the map has as many entries as there are records.
pub proof fn lemma_table_len(e: Seq<ClientInfo>)
    requires
        ids_distinct(e),
    ensures
        table_map(e).dom().finite(),
        table_map(e).len() == e.len(),
    decreases e.len(),
{
    lemma_table_dom(e);
    if e.len() > 0 {
        let p = e.drop_last();
        assert(ids_distinct(p));
        lemma_table_len(p);
        lemma_table_dom(p);
        assert(!has_id(p, e.last().client_id@)) by {
            if has_id(p, e.last().client_id@) {
                let k = choose|k: int| 0 <= k < p.len() && p[k].client_id@ == e.last().client_id@;
                assert(e[k] == p[k]);
            }
        }
        assert(!table_map(p).contains_key(e.last().client_id@));
    }
}

/// Appending a record with a fresh id inserts it into the map.
pub proof fn lemma_table_push(e: Seq<ClientInfo>, c: ClientInfo)
    requires
        ids_distinct(e),
        !table_map(e).contains_key(c.client_id@),
    ensures
        ids_distinct(e.push(c)),
        table_map(e.push(c)) == table_map(e).insert(c.client_id@, c),
{
    lemma_table_dom(e);
    assert(e.push(c).drop_last() =~= e);
    assert forall|i: int, j: int| 0 <= i < j < e.push(c).len() implies e.push(c)[i].client_id@
        != e.push(c)[j].client_id@ by {
        if j == e.len() {
            assert(e.push(c)[i] == e[i]);
            if e[i].client_id@ == c.client_id@ {
                assert(has_id(e, c.client_id@));
            }
        }
    }
}

/// Replacing a record by one with the same id overwrites its map entry.
pub proof fn lemma_table_update(e: Seq<ClientInfo>, i: int, c: ClientInfo)
    requires
        ids_distinct(e),
        0 <= i < e.len(),
        c.client_id@ == e[i].client_id@,
    ensures
        ids_distinct(e.update(i, c)),
        table_map(e.update(i, c)) == table_map(e).insert(c.client_id@, c),
    decreases e.len(),
{
    let u = e.update(i, c);
    let p = e.drop_last();
    assert(ids_distinct(u)) by {
        assert forall|a: int, b: int| 0 <= a < b < u.len() implies u[a].client_id@
            != u[b].client_id@ by {
            assert(u[a].client_id@ == e[a].client_id@);
            assert(u[b].client_id@ == e[b].client_id@);
        }
    }
    if i == e.len() - 1 {
        assert(u.drop_last() =~= p);
        assert(table_map(u) =~= table_map(e).insert(c.client_id@, c));
    } else {
        assert(ids_distinct(p));
        assert(u.drop_last() =~= p.update(i, c));
        lemma_table_update(p, i, c);
        assert(e.last().client_id@ != c.client_id@);
        assert(table_map(u) =~= table_map(e).insert(c.client_id@, c));
    }
}

/// Removing a record removes its id from the map.
pub proof fn lemma_table_remove(e: Seq<ClientInfo>, i: int)
    requires
        ids_distinct(e),
        0 <= i < e.len(),
    ensures
        ids_distinct(e.remove(i)),
        table_map(e.remove(i)) == table_map(e).remove(e[i].client_id@),
    decreases e.len(),
{
    let r = e.remove(i);
    let p = e.drop_last();
    let id = e[i].client_id@;
    assert(ids_distinct(r)) by {
        assert forall|a: int, b: int| 0 <= a < b < r.len() implies r[a].client_id@
            != r[b].client_id@ by {
            let a2 = if a < i { a } else { a + 1 };
            let b2 = if b < i { b } else { b + 1 };
            assert(r[a] == e[a2]);
            assert(r[b] == e[b2]);
        }
    }
    assert(ids_distinct(p));
    if i == e.len() - 1 {
        assert(r =~= p);
        lemma_table_dom(p);
        assert(!has_id(p, id)) by {
            if has_id(p, id) {
                let k = choose|k: int| 0 <= k < p.len() && p[k].client_id@ == id;
                assert(e[k] == p[k]);
            }
        }
        assert(table_map(r) =~= table_map(e).remove(id));
    } else {
        assert(r.drop_last() =~= p.remove(i));
        assert(r.last() == e.last());
        lemma_table_remove(p, i);
        assert(p[i] == e[i]);
        assert(e.last().client_id@ != id);
        assert(table_map(r) =~= table_map(e).remove(id));
    }
}

/// Transforming every record without touching its id transforms the map the same way.
pub proof fn lemma_table_map_values(e: Seq<ClientInfo>, f: spec_fn(ClientInfo) -> ClientInfo)
    requires
        forall|c: ClientInfo| #[trigger] f(c).client_id@ == c.client_id@,
    ensures
        table_map(e.map_values(f)) == table_map(e).map_values(f),
        ids_distinct(e) ==> ids_distinct(e.map_values(f)),
    decreases e.len(),
{
    let g = e.map_values(f);
    if e.len() > 0 {
        let p = e.drop_last();
        assert(g.drop_last() =~= p.map_values(f));
        lemma_table_map_values(p, f);
        assert(g.last() == f(e.last()));
        assert(table_map(g) =~= table_map(e).map_values(f));
    } else {
        assert(table_map(g) =~= table_map(e).map_values(f));
    }
    if ids_distinct(e) {
        assert forall|a: int, b: int| 0 <= a < b < g.len() implies g[a].client_id@
            != g[b].client_id@ by {
            assert(g[a] == f(e[a]));
            assert(g[b] == f(e[b]));
        }
    }
}

/// The active clients of the map are counted by `count_active`.
pub proof fn lemma_table_active(e: Seq<ClientInfo>)
    requires
        ids_distinct(e),
    ensures
        active_ids(table_map(e)).finite(),
        active_ids(table_map(e)).len() == count_active(e),
    decreases e.len(),
{
    lemma_table_dom(e);
    let m = table_map(e);
    if e.len() == 0 {
        assert(active_ids(m) =~= Set::empty());
    } else {
        let p = e.drop_last();
        let l = e.last();
        assert(ids_distinct(p));
        lemma_table_active(p);
        lemma_table_dom(p);
        let mp = table_map(p);
        assert(!mp.contains_key(l.client_id@)) by {
            if has_id(p, l.client_id@) {
                let k = choose|k: int| 0 <= k < p.len() && p[k].client_id@ == l.client_id@;
                assert(e[k] == p[k]);
            }
        }
        if l.active {
            assert(active_ids(m) =~= active_ids(mp).insert(l.client_id@));
        } else {
            assert(active_ids(m) =~= active_ids(mp));
        }
    }
}

/// Any entry can be taken out first when summing over a map.
pub proof fn lemma_map_total_remove(
    m: Map<Seq<char>, ClientInfo>,
    f: spec_fn(ClientInfo) -> int,
    k: Seq<char>,
)
    requires
        m.dom().finite(),
        m.contains_key(k),
    ensures
        map_total(m, f) == f(m[k]) + map_total(m.remove(k), f),
    decreases m.len(),
{
    let c = m.dom().choose();
    assert(m.dom().contains(c));
    if c != k {
        let mc = m.remove(c);
        let mk = m.remove(k);
        assert(mc.len() < m.len());
        lemma_map_total_remove(mc, f, k);
        assert(mk.len() < m.len());
        lemma_map_total_remove(mk, f, c);
        assert(mc.remove(k) =~= mk.remove(c));
    }
}

/// A sum whose summands are all zero is zero.
pub proof fn lemma_map_total_zero(m: Map<Seq<char>, ClientInfo>, f: spec_fn(ClientInfo) -> int)
    requires
        m.dom().finite(),
        forall|k: Seq<char>| #[trigger] m.contains_key(k) ==> f(m[k]) == 0,
    ensures
        map_total(m, f) == 0,
    decreases m.len(),
{
    if m.dom().len() > 0 {
        let k = m.dom().choose();
        assert(m.contains_key(k));
        lemma_map_total_zero(m.remove(k), f);
    }
}

/// Overwriting one entry changes the sum by the difference of the summands.
pub proof fn lemma_map_total_insert(
    m: Map<Seq<char>, ClientInfo>,
    f: spec_fn(ClientInfo) -> int,
    k: Seq<char>,
    v: ClientInfo,
)
    requires
        m.dom().finite(),
    ensures
        m.insert(k, v).dom().finite(),
        map_total(m.insert(k, v), f) == map_total(m, f) + f(v) - if m.contains_key(k) {
            f(m[k])
        } else {
            0
        },
{
    let n = m.insert(k, v);
    lemma_map_total_remove(n, f, k);
    if m.contains_key(k) {
        lemma_map_total_remove(m, f, k);
        assert(n.remove(k) =~= m.remove(k));
    } else {
        assert(n.remove(k) =~= m);
    }
}

/// Sums over the map agree with sums over the stored records.
pub proof fn lemma_table_total(e: Seq<ClientInfo>, f: spec_fn(ClientInfo) -> int)
    requires
        ids_distinct(e),
    ensures
        map_total(table_map(e), f) == seq_total(e, f),
    decreases e.len(),
{
    lemma_table_dom(e);
    if e.len() > 0 {
        let p = e.drop_last();
        let l = e.last();
        assert(ids_distinct(p));
        lemma_table_total(p, f);
        lemma_table_dom(p);
        let mp = table_map(p);
        assert(!mp.contains_key(l.client_id@)) by {
            if has_id(p, l.client_id@) {
                let k = choose|k: int| 0 <= k < p.len() && p[k].client_id@ == l.client_id@;
                assert(e[k] == p[k]);
            }
        }
        let m = table_map(e);
        lemma_map_total_remove(m, f, l.client_id@);
        assert(m.remove(l.client_id@) =~= mp);
    } else {
        assert(table_map(e).dom() =~= Set::empty());
    }
}

/// Appending a record with index `bound` keeps indices distinct, below `bound + 1`.
pub proof fn lemma_indices_push(e: Seq<ClientInfo>, c: ClientInfo, bound: int)
    requires
        indices_below(e, bound),
        indices_distinct(e),
        0 <= bound,
        c.client_index == bound,
    ensures
        indices_below(e.push(c), bound + 1),
        indices_distinct(e.push(c)),
{
    let p = e.push(c);
    assert forall|i: int| 0 <= i < p.len() implies 0 <= #[trigger] p[i].client_index < bound + 1 by {
        if i < e.len() {
            assert(p[i] == e[i]);
        }
    }
    assert forall|i: int, j: int| 0 <= i < j < p.len() implies p[i].client_index
        != p[j].client_index by {
        assert(p[i] == e[i]);
        if j < e.len() {
            assert(p[j] == e[j]);
        }
    }
}

/// Transforming records without touching their index keeps the index facts.
pub proof fn lemma_indices_map_values(
    e: Seq<ClientInfo>,
    f: spec_fn(ClientInfo) -> ClientInfo,
    bound: int,
)
    requires
        indices_below(e, bound),
        indices_distinct(e),
        forall|c: ClientInfo| #[trigger] f(c).client_index == c.client_index,
    ensures
        indices_below(e.map_values(f), bound),
        indices_distinct(e.map_values(f)),
{
    let g = e.map_values(f);
    assert forall|i: int| 0 <= i < g.len() implies 0 <= #[trigger] g[i].client_index < bound by {
        assert(g[i] == f(e[i]));
    }
    assert forall|i: int, j: int| 0 <= i < j < g.len() implies g[i].client_index
        != g[j].client_index by {
        assert(g[i] == f(e[i]));
        assert(g[j] == f(e[j]));
    }
}

/// Replacing a record by one with the same index keeps the index facts.
pub proof fn lemma_indices_update(e: Seq<ClientInfo>, i: int, c: ClientInfo, bound: int)
    requires
        indices_below(e, bound),
        indices_distinct(e),
        0 <= i < e.len(),
        c.client_index == e[i].client_index,
    ensures
        indices_below(e.update(i, c), bound),
        indices_distinct(e.update(i, c)),
{
    let u = e.update(i, c);
    assert forall|k: int| 0 <= k < u.len() implies 0 <= #[trigger] u[k].client_index < bound by {
        assert(u[k].client_index == e[k].client_index);
    }
    assert forall|a: int, b: int| 0 <= a < b < u.len() implies u[a].client_index
        != u[b].client_index by {
        assert(u[a].client_index == e[a].client_index);
        assert(u[b].client_index == e[b].client_index);
    }
}

/// Removing a record keeps the index facts.
pub proof fn lemma_indices_remove(e: Seq<ClientInfo>, i: int, bound: int)
    requires
        indices_below(e, bound),
        indices_distinct(e),
        0 <= i < e.len(),
    ensures
        indices_below(e.remove(i), bound),
        indices_distinct(e.remove(i)),
{
    let r = e.remove(i);
    assert forall|k: int| 0 <= k < r.len() implies 0 <= #[trigger] r[k].client_index < bound by {
        let k2 = if k < i { k } else { k + 1 };
        assert(r[k] == e[k2]);
    }
    assert forall|a: int, b: int| 0 <= a < b < r.len() implies r[a].client_index
        != r[b].client_index by {
        let a2 = if a < i { a } else { a + 1 };
        let b2 = if b < i { b } else { b + 1 };
        assert(r[a] == e[a2]);
        assert(r[b] == e[b2]);
    }
}

} // verus!
