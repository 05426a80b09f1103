//! The rows a scan sees on a branch: the main branch's rows, overridden by
//! the rows each branch of the chain wrote (oldest first, so the newest
//! write wins), less every row that a branch of the chain deleted, in row
//! order.
use vstd::prelude::*;
use crate::text::{decimal, decimal_spec, extend_bytes};

verus! {

/// Where the row a branch scan returns comes from: the main branch's rows
/// (`layer` is `None`) or the rows of the chain's branch at `layer`, at
/// position `index` of that list.
#[derive(Debug, Clone, Copy, PartialEq, Eq, Structural)]
pub struct RowSource {
    /// The row id
    pub row_id: u64,
    /// The branch of the chain that wrote the row, `None` for main
    pub layer: Option<usize>,
    /// Position of the row in that branch's (or main's) row list
    pub index: usize,
}

/// A row of some layer, in the order the scan reads them.
pub open spec fn main_entries(main: Seq<u64>) -> Seq<RowSource> {
    Seq::new(main.len(), |i: int| RowSource { row_id: main[i], layer: None, index: i as usize })
}

/// The rows of layer `k`, as sources.
pub open spec fn layer_entries(rows: Seq<u64>, k: int) -> Seq<RowSource> {
    Seq::new(rows.len(), |i: int| RowSource { row_id: rows[i], layer: Some(k as usize), index: i as usize })
}

/// The rows of the first `k` layers, in order.
pub open spec fn layers_entries(layers: Seq<Seq<u64>>, k: int) -> Seq<RowSource>
    decreases k,
{
    if k <= 0 {
        Seq::empty()
    } else {
        layers_entries(layers, k - 1) + layer_entries(layers[k - 1], k - 1)
    }
}

/// Every row the scan reads, in order: main's, then each layer's.
pub open spec fn all_entries(main: Seq<u64>, layers: Seq<Seq<u64>>) -> Seq<RowSource> {
    main_entries(main) + layers_entries(layers, layers.len() as int)
}

/// The last of the entries that holds the row: the write that wins.
pub open spec fn last_write(es: Seq<RowSource>, row_id: u64) -> Option<RowSource>
    decreases es.len(),
{
    if es.len() == 0 {
        None
    } else if es.last().row_id == row_id {
        Some(es.last())
    } else {
        last_write(es.drop_last(), row_id)
    }
}

/// Did some branch of the chain delete the row?
pub open spec fn deleted_in(deletes: Seq<Seq<u64>>, row_id: u64) -> bool {
    exists|k: int, i: int| 0 <= k < deletes.len() && 0 <= i < deletes[k].len() && deletes[k][i] == row_id
}

/// The rows a branch scan returns, each with where it comes from: every row
/// written on main or on a branch of the chain and deleted by none, once,
/// from its last write, in increasing row order.
pub open spec fn scan_result_ok(
    r: Seq<RowSource>,
    main: Seq<u64>,
    layers: Seq<Seq<u64>>,
    deletes: Seq<Seq<u64>>,
) -> bool {
    &&& forall|a: int, b: int| 0 <= a < b < r.len() ==> (#[trigger] r[a]).row_id < (#[trigger] r[b]).row_id
    &&& forall|j: int| 0 <= j < r.len() ==> last_write(all_entries(main, layers), (#[trigger] r[j]).row_id) == Some(r[j])
    &&& forall|j: int| 0 <= j < r.len() ==> !deleted_in(deletes, (#[trigger] r[j]).row_id)
    &&& forall|row_id: u64|
        #![trigger last_write(all_entries(main, layers), row_id)]
        last_write(all_entries(main, layers), row_id) is Some && !deleted_in(deletes, row_id) ==> exists|j: int|
            0 <= j < r.len() && r[j].row_id == row_id
}

/// The last write after one more entry.
proof fn lemma_last_write_push(es: Seq<RowSource>, e: RowSource, row_id: u64)
    ensures
        last_write(es.push(e), row_id) == if e.row_id == row_id { Some(e) } else { last_write(es, row_id) },
{
    assert(es.push(e).drop_last() =~= es);
}

/// A last write is one of the entries, for its row.
proof fn lemma_last_write_is_entry(es: Seq<RowSource>, row_id: u64)
    ensures
        last_write(es, row_id) matches Some(e) ==> e.row_id == row_id && es.contains(e),
        last_write(es, row_id) is None ==> forall|i: int| 0 <= i < es.len() ==> es[i].row_id != row_id,
    decreases es.len(),
{
    if es.len() > 0 {
        lemma_last_write_is_entry(es.drop_last(), row_id);
        if es.last().row_id == row_id {
            assert(es[es.len() - 1] == es.last());
        } else if let Some(e) = last_write(es.drop_last(), row_id) {
            let i = choose|i: int| 0 <= i < es.drop_last().len() && es.drop_last()[i] == e;
            assert(es[i] == e);
        } else {
            assert forall|i: int| 0 <= i < es.len() implies es[i].row_id != row_id by {
                if i < es.len() - 1 {
                    assert(es[i] == es.drop_last()[i]);
                }
            }
        }
    }
}

/// The rows seen so far, each once with its last write, in increasing order.
spec fn acc_ok(acc: Seq<RowSource>, es: Seq<RowSource>) -> bool {
    &&& forall|a: int, b: int| 0 <= a < b < acc.len() ==> (#[trigger] acc[a]).row_id < (#[trigger] acc[b]).row_id
    &&& forall|j: int| 0 <= j < acc.len() ==> last_write(es, (#[trigger] acc[j]).row_id) == Some(acc[j])
    &&& forall|row_id: u64|
        #![trigger last_write(es, row_id)]
        last_write(es, row_id) is Some ==> exists|j: int| 0 <= j < acc.len() && acc[j].row_id == row_id
}

/// Record a write: the row's entry is replaced, or inserted in row order.
fn upsert(acc: &mut Vec<RowSource>, e: RowSource, Ghost(es): Ghost<Seq<RowSource>>)
    requires
        acc_ok(old(acc)@, es),
    ensures
        acc_ok(final(acc)@, es.push(e)),
{
    let mut p: usize = 0;
    while p < acc.len() && acc[p].row_id < e.row_id
        invariant
            p <= acc@.len(),
            acc@ == old(acc)@,
            forall|j: int| 0 <= j < p ==> acc@[j].row_id < e.row_id,
        decreases acc@.len() - p,
    {
        p = p + 1;
    }
    let ghost a0 = acc@;
    proof {
        assert forall|row_id: u64| #[trigger] last_write(es.push(e), row_id) == if e.row_id == row_id { Some(e) } else { last_write(es, row_id) } by {
            lemma_last_write_push(es, e, row_id);
        }
    }
    if p < acc.len() && acc[p].row_id == e.row_id {
        acc.set(p, e);
        proof {
            let a1 = acc@;
            assert(a1 == a0.update(p as int, e));
            assert forall|j: int| 0 <= j < a1.len() implies last_write(es.push(e), (#[trigger] a1[j]).row_id) == Some(a1[j]) by {
                if j != p {
                    assert(a1[j] == a0[j]);
                    assert(a0[j].row_id != e.row_id) by {
                        if j < p {
                        } else {
                            assert(a0[p as int].row_id < a0[j].row_id);
                        }
                    }
                }
            }
            assert forall|row_id: u64| #[trigger] last_write(es.push(e), row_id) is Some implies exists|j: int|
                0 <= j < a1.len() && a1[j].row_id == row_id by {
                if row_id == e.row_id {
                    assert(a1[p as int].row_id == row_id);
                } else {
                    let j = choose|j: int| 0 <= j < a0.len() && a0[j].row_id == row_id;
                    assert(a1[j] == a0[j]);
                }
            }
        }
    } else {
        acc.insert(p, e);
        proof {
            let a1 = acc@;
            assert(a1 == a0.insert(p as int, e));
            assert forall|j: int| 0 <= j < a0.len() implies a0[j].row_id != e.row_id by {
                if j >= p as int && j > p as int {
                    assert(a0[p as int].row_id < a0[j].row_id);
                }
            }
            assert forall|a: int, b: int| 0 <= a < b < a1.len() implies (#[trigger] a1[a]).row_id < (#[trigger] a1[b]).row_id by {
                if b < p {
                    assert(a1[a] == a0[a] && a1[b] == a0[b]);
                } else if b == p {
                    assert(a1[a] == a0[a]);
                } else if a == p {
                    assert(a1[b] == a0[b - 1]);
                    if b - 1 > p {
                        assert(a0[p as int].row_id < a0[b - 1].row_id);
                    }
                    assert(a0[p as int].row_id >= e.row_id);
                } else if a < p {
                    assert(a1[a] == a0[a] && a1[b] == a0[b - 1]);
                } else {
                    assert(a1[a] == a0[a - 1] && a1[b] == a0[b - 1]);
                }
            }
            assert forall|j: int| 0 <= j < a1.len() implies last_write(es.push(e), (#[trigger] a1[j]).row_id) == Some(a1[j]) by {
                if j < p {
                    assert(a1[j] == a0[j]);
                } else if j > p {
                    assert(a1[j] == a0[j - 1]);
                }
            }
            assert forall|row_id: u64| #[trigger] last_write(es.push(e), row_id) is Some implies exists|j: int|
                0 <= j < a1.len() && a1[j].row_id == row_id by {
                if row_id == e.row_id {
                    assert(a1[p as int].row_id == row_id);
                } else {
                    let j = choose|j: int| 0 <= j < a0.len() && a0[j].row_id == row_id;
                    if j < p {
                        assert(a1[j] == a0[j]);
                    } else {
                        assert(a1[j + 1] == a0[j]);
                    }
                }
            }
        }
    }
}

/// Does some branch's delete list hold the row?
fn is_deleted(deletes: &Vec<Vec<u64>>, row_id: u64) -> (r: bool)
    ensures
        r == deleted_in(deletes@.map_values(|d: Vec<u64>| d@), row_id),
{
    let ghost ds = deletes@.map_values(|d: Vec<u64>| d@);
    let mut k: usize = 0;
    while k < deletes.len()
        invariant
            k <= deletes@.len(),
            ds == deletes@.map_values(|d: Vec<u64>| d@),
            forall|k2: int, i: int| 0 <= k2 < k && 0 <= i < ds[k2].len() ==> ds[k2][i] != row_id,
        decreases deletes@.len() - k,
    {
        let d = &deletes[k];
        let mut i: usize = 0;
        while i < d.len()
            invariant
                i <= d@.len(),
                k < deletes@.len(),
                ds == deletes@.map_values(|d: Vec<u64>| d@),
                ds[k as int] == d@,
                forall|i2: int| 0 <= i2 < i ==> d@[i2] != row_id,
            decreases d@.len() - i,
        {
            if d[i] == row_id {
                proof {
                    assert(ds[k as int][i as int] == row_id);
                    assert(0 <= k < ds.len() && 0 <= i < ds[k as int].len());
                }
                return true;
            }
            i = i + 1;
        }
        k = k + 1;
    }
    false
}

/// The rows a scan on a branch returns, and where each comes from: the
/// main branch's rows (`main_rows`, their ids), overridden by the rows each
/// branch of the chain wrote (`branch_rows`, oldest branch first, so that a
/// child's write wins over its parent's and a later write over an earlier
/// one), less every row any branch of the chain deleted (`branch_deletes`),
/// in increasing row order.
pub fn branch_scan_rows(main_rows: &[u64], branch_rows: &Vec<Vec<u64>>, branch_deletes: &Vec<Vec<u64>>) -> (r: Vec<RowSource>)
    ensures
        scan_result_ok(
            r@,
            main_rows@,
            branch_rows@.map_values(|v: Vec<u64>| v@),
            branch_deletes@.map_values(|d: Vec<u64>| d@),
        ),
{
    let ghost layers = branch_rows@.map_values(|v: Vec<u64>| v@);
    let ghost dels = branch_deletes@.map_values(|d: Vec<u64>| d@);
    let mut acc: Vec<RowSource> = Vec::new();
    let mut i: usize = 0;
    while i < main_rows.len()
        invariant
            i <= main_rows@.len(),
            acc_ok(acc@, main_entries(main_rows@).take(i as int)),
        decreases main_rows@.len() - i,
    {
        let e = RowSource { row_id: main_rows[i], layer: None, index: i };
        let ghost es = main_entries(main_rows@).take(i as int);
        upsert(&mut acc, e, Ghost(es));
        proof {
            assert(main_entries(main_rows@).take(i + 1) =~= es.push(e));
        }
        i = i + 1;
    }
    proof {
        assert(main_entries(main_rows@).take(i as int) =~= main_entries(main_rows@) + layers_entries(layers, 0));
    }
    let mut k: usize = 0;
    while k < branch_rows.len()
        invariant
            k <= branch_rows@.len(),
            layers == branch_rows@.map_values(|v: Vec<u64>| v@),
            acc_ok(acc@, main_entries(main_rows@) + layers_entries(layers, k as int)),
        decreases branch_rows@.len() - k,
    {
        let rows = &branch_rows[k];
        let ghost before = main_entries(main_rows@) + layers_entries(layers, k as int);
        let mut j: usize = 0;
        proof {
            assert(before + layer_entries(layers[k as int], k as int).take(0) =~= before);
        }
        while j < rows.len()
            invariant
                j <= rows@.len(),
                k < branch_rows@.len(),
                layers[k as int] == rows@,
                acc_ok(acc@, before + layer_entries(layers[k as int], k as int).take(j as int)),
            decreases rows@.len() - j,
        {
            let e = RowSource { row_id: rows[j], layer: Some(k), index: j };
            let ghost es = before + layer_entries(layers[k as int], k as int).take(j as int);
            upsert(&mut acc, e, Ghost(es));
            proof {
                assert(before + layer_entries(layers[k as int], k as int).take(j + 1) =~= es.push(e));
            }
            j = j + 1;
        }
        proof {
            assert(layer_entries(layers[k as int], k as int).take(j as int) =~= layer_entries(layers[k as int], k as int));
            assert(main_entries(main_rows@) + layers_entries(layers, k + 1) =~= before + layer_entries(
                layers[k as int],
                k as int,
            ));
        }
        k = k + 1;
    }
    let ghost all = all_entries(main_rows@, layers);
    proof {
        assert(main_entries(main_rows@) + layers_entries(layers, k as int) == all);
    }
    let mut r: Vec<RowSource> = Vec::new();
    let mut t: usize = 0;
    while t < acc.len()
        invariant
            t <= acc@.len(),
            acc_ok(acc@, all),
            dels == branch_deletes@.map_values(|d: Vec<u64>| d@),
            forall|a: int, b: int| 0 <= a < b < r@.len() ==> (#[trigger] r@[a]).row_id < (#[trigger] r@[b]).row_id,
            forall|j: int| 0 <= j < r@.len() ==> last_write(all, (#[trigger] r@[j]).row_id) == Some(r@[j]),
            forall|j: int| 0 <= j < r@.len() ==> !deleted_in(dels, (#[trigger] r@[j]).row_id),
            forall|j: int| 0 <= j < r@.len() ==> exists|q: int| 0 <= q < t && acc@[q] == #[trigger] r@[j],
            forall|q: int| 0 <= q < t && !deleted_in(dels, (#[trigger] acc@[q]).row_id) ==> exists|j: int|
                0 <= j < r@.len() && r@[j] == acc@[q],
        decreases acc@.len() - t,
    {
        let e = acc[t];
        if !is_deleted(branch_deletes, e.row_id) {
            let ghost r0 = r@;
            r.push(e);
            proof {
                assert forall|a: int, b: int| 0 <= a < b < r@.len() implies (#[trigger] r@[a]).row_id < (#[trigger] r@[b]).row_id by {
                    if b == r0.len() {
                        let q = choose|q: int| 0 <= q < t && acc@[q] == r0[a];
                        assert(acc@[q].row_id < acc@[t as int].row_id);
                    } else {
                        assert(r@[a] == r0[a] && r@[b] == r0[b]);
                    }
                }
                assert forall|j: int| 0 <= j < r@.len() implies exists|q: int| 0 <= q < t + 1 && acc@[q] == #[trigger] r@[j] by {
                    if j < r0.len() {
                        assert(r@[j] == r0[j]);
                        let q = choose|q: int| 0 <= q < t && acc@[q] == r0[j];
                    } else {
                        assert(acc@[t as int] == r@[j]);
                    }
                }
                assert forall|q: int| 0 <= q < t + 1 && !deleted_in(dels, (#[trigger] acc@[q]).row_id) implies exists|j: int|
                    0 <= j < r@.len() && r@[j] == acc@[q] by {
                    if q < t {
                        let j = choose|j: int| 0 <= j < r0.len() && r0[j] == acc@[q];
                        assert(r@[j] == r0[j]);
                    } else {
                        assert(r@[r0.len() as int] == acc@[q]);
                    }
                }
            }
        }
        t = t + 1;
    }
    proof {
        assert forall|row_id: u64|
            #![trigger last_write(all, row_id)]
            last_write(all, row_id) is Some && !deleted_in(dels, row_id) implies exists|j: int|
                0 <= j < r@.len() && r@[j].row_id == row_id by {
            let q = choose|q: int| 0 <= q < acc@.len() && acc@[q].row_id == row_id;
            assert(!deleted_in(dels, acc@[q].row_id));
            let j = choose|j: int| 0 <= j < r@.len() && r@[j] == acc@[q];
        }
    }
    r
}


/// The last write in two runs of entries: the second run's, if it holds the row.
proof fn lemma_last_write_concat(a: Seq<RowSource>, b: Seq<RowSource>, row_id: u64)
    ensures
        last_write(a + b, row_id) == match last_write(b, row_id) {
            Some(e) => Some(e),
            None => last_write(a, row_id),
        },
    decreases b.len(),
{
    if b.len() == 0 {
        assert(a + b =~= a);
    } else {
        assert((a + b).drop_last() =~= a + b.drop_last());
        assert((a + b).last() == b.last());
        lemma_last_write_concat(a, b.drop_last(), row_id);
    }
}

/// A layer holding the row has a last write for it, from that layer.
proof fn lemma_layer_write(rows: Seq<u64>, k: int, row_id: u64)
    requires
        rows.contains(row_id),
        0 <= k <= usize::MAX,
    ensures
        last_write(layer_entries(rows, k), row_id) matches Some(e) && e.layer == Some(k as usize),
{
    let es = layer_entries(rows, k);
    let i = choose|i: int| 0 <= i < rows.len() && rows[i] == row_id;
    assert(es[i].row_id == row_id);
    lemma_last_write_is_entry(es, row_id);
    if let Some(e) = last_write(es, row_id) {
        let q = choose|q: int| 0 <= q < es.len() && es[q] == e;
    }
}

proof fn lemma_newest_write(main: Seq<u64>, layers: Seq<Seq<u64>>, row_id: u64, k: int, n: int)
    requires
        0 <= k < n <= layers.len(),
        layers.len() <= usize::MAX,
        layers[k].contains(row_id),
    ensures
        last_write(main_entries(main) + layers_entries(layers, n), row_id) matches Some(s) && s.layer matches Some(l) && k
            <= l < n,
    decreases n,
{
    let prev = main_entries(main) + layers_entries(layers, n - 1);
    let last = layer_entries(layers[n - 1], n - 1);
    assert(main_entries(main) + layers_entries(layers, n) =~= prev + last);
    lemma_last_write_concat(prev, last, row_id);
    if layers[n - 1].contains(row_id) {
        lemma_layer_write(layers[n - 1], n - 1, row_id);
    } else {
        lemma_last_write_is_entry(last, row_id);
        if let Some(e) = last_write(last, row_id) {
            let q = choose|q: int| 0 <= q < last.len() && last[q] == e;
            assert(layers[n - 1][q] == row_id);
        }
        lemma_newest_write(main, layers, row_id, k, n - 1);
    }
}

/// The newest write wins: a row that a branch of the chain wrote is seen as
/// written by that branch or a newer one (a child over its parent), never by
/// an older branch or by main.
pub proof fn law_newest_write_wins(main: Seq<u64>, layers: Seq<Seq<u64>>, row_id: u64, k: int)
    requires
        0 <= k < layers.len(),
        layers.len() <= usize::MAX,
        layers[k].contains(row_id),
    ensures
        last_write(all_entries(main, layers), row_id) matches Some(s) && s.layer matches Some(l) && k <= l,
{
    lemma_newest_write(main, layers, row_id, k, layers.len() as int);
}


/// The branches whose rows a scan layers over main's, oldest first: the
/// ancestors from the root down (from a parent chain listed nearest first),
/// leaving out the id 0, then the branch itself.
pub open spec fn scan_chain_spec(parent_chain: Seq<(u64, u64)>, current: u64) -> Seq<u64> {
    parent_chain.map_values(|p: (u64, u64)| p.0).reverse().filter(|id: u64| id != 0).push(current)
}

/// The branches whose rows a scan on `current` layers over main's, oldest
/// first, from its parent chain (nearest ancestor first).
pub fn scan_chain(parent_chain: &Vec<(u64, u64)>, current: u64) -> (r: Vec<u64>)
    ensures
        r@ == scan_chain_spec(parent_chain@, current),
{
    let ghost ids = parent_chain@.map_values(|p: (u64, u64)| p.0);
    let ghost f = |id: u64| id != 0;
    let mut r: Vec<u64> = Vec::new();
    let mut i: usize = parent_chain.len();
    proof {
        assert(ids.reverse().take(0) =~= Seq::<u64>::empty());
        assert(Seq::<u64>::empty().filter(f) =~= Seq::<u64>::empty());
    }
    while i > 0
        invariant
            i <= parent_chain@.len(),
            ids == parent_chain@.map_values(|p: (u64, u64)| p.0),
            f == (|id: u64| id != 0),
            r@ == ids.reverse().take(parent_chain@.len() - i).filter(f),
        decreases i,
    {
        i = i - 1;
        let id = parent_chain[i].0;
        let ghost n = parent_chain@.len() as int;
        let ghost before = ids.reverse().take(n - i - 1);
        proof {
            assert(ids.reverse().take(n - i) =~= before.push(id));
            crate::text::lemma_filter_push(before, f, id);
        }
        if id != 0 {
            r.push(id);
        }
    }
    proof {
        assert(ids.reverse().take(parent_chain@.len() as int) =~= ids.reverse());
    }
    r.push(current);
    r
}

/// The text of the key of a row: `bdata:{branch}:{table}:{row}` on a
/// branch, `data:{table}:{row}` on main.
pub open spec fn row_key_text(branch_id: Option<u64>, table: Seq<char>, row_id: u64) -> Seq<char> {
    match branch_id {
        Some(b) => "bdata:"@ + decimal_spec(b as nat) + ":"@ + table + ":"@ + decimal_spec(row_id as nat),
        None => "data:"@ + table + ":"@ + decimal_spec(row_id as nat),
    }
}

/// The key of a row of a table, on a branch or (with no branch) on main,
/// as UTF-8 bytes.
pub fn branch_aware_data_key(branch_id: Option<u64>, table_name: &str, row_id: u64) -> (r: Vec<u8>)
    ensures
        r@ == vstd::utf8::encode_utf8(row_key_text(branch_id, table_name@, row_id)),
{
    let s = match branch_id {
        Some(b) => String::from_str("bdata:").concat(decimal(b).as_str()).concat(":").concat(table_name).concat(":").concat(
            decimal(row_id).as_str(),
        ),
        None => String::from_str("data:").concat(table_name).concat(":").concat(decimal(row_id).as_str()),
    };
    proof {
        reveal_strlit("bdata:");
        reveal_strlit("data:");
        reveal_strlit(":");
    }
    let mut r: Vec<u8> = Vec::new();
    extend_bytes(&mut r, s.as_str().as_bytes());
    r
}

/// The text of the key of a branch's delete marker for a row:
/// `bdel:{branch}:{table}:{row}`.
pub open spec fn delete_marker_text(branch_id: u64, table: Seq<char>, row_id: u64) -> Seq<char> {
    "bdel:"@ + decimal_spec(branch_id as nat) + ":"@ + table + ":"@ + decimal_spec(row_id as nat)
}

/// The key of a branch's delete marker for a row, as UTF-8 bytes.
pub fn delete_marker_key(branch_id: u64, table_name: &str, row_id: u64) -> (r: Vec<u8>)
    ensures
        r@ == vstd::utf8::encode_utf8(delete_marker_text(branch_id, table_name@, row_id)),
{
    let s = String::from_str("bdel:").concat(decimal(branch_id).as_str()).concat(":").concat(table_name).concat(":").concat(
        decimal(row_id).as_str(),
    );
    proof {
        reveal_strlit("bdel:");
        reveal_strlit(":");
    }
    let mut r: Vec<u8> = Vec::new();
    extend_bytes(&mut r, s.as_str().as_bytes());
    r
}

} // verus!
