//! Item sets for table-indexed problems: a set of table indices is held as a
//! strictly increasing vector, and the sums of the table entries it selects
//! are what the objective reads.
use vstd::prelude::*;

verus! {

/// The entries of `s` grow strictly: `s` holds a set, in ascending order.
pub open spec fn strictly_increasing(s: Seq<usize>) -> bool {
    forall|i: int, j: int| 0 <= i < j < s.len() ==> s[i] < s[j]
}

/// The sum of every entry of `table`.
pub open spec fn table_sum(table: Seq<u64>) -> int
    decreases table.len(),
{
    if table.len() == 0 {
        0
    } else {
        table[0] + table_sum(table.drop_first())
    }
}

/// The sum of the `table` entries selected by `items`; an out-of-range index
/// selects nothing.
pub open spec fn selected_sum(items: Seq<usize>, table: Seq<u64>) -> int
    decreases items.len(),
{
    if items.len() == 0 {
        0
    } else {
        (if (items[0] as int) < table.len() {
            table[items[0] as int] as int
        } else {
            0
        }) + selected_sum(items.drop_first(), table)
    }
}

pub proof fn lemma_table_sum_nonneg(table: Seq<u64>)
    ensures
        table_sum(table) >= 0,
    decreases table.len(),
{
    if table.len() > 0 {
        lemma_table_sum_nonneg(table.drop_first());
    }
}

pub proof fn lemma_selected_sum_nonneg(items: Seq<usize>, table: Seq<u64>)
    ensures
        selected_sum(items, table) >= 0,
    decreases items.len(),
{
    if items.len() > 0 {
        lemma_selected_sum_nonneg(items.drop_first(), table);
    }
}

/// The table sum splits over concatenation.
pub proof fn lemma_table_sum_concat(a: Seq<u64>, b: Seq<u64>)
    ensures
        table_sum(a + b) == table_sum(a) + table_sum(b),
    decreases a.len(),
{
    if a.len() == 0 {
        assert(a + b =~= b);
    } else {
        assert((a + b).drop_first() =~= a.drop_first() + b);
        lemma_table_sum_concat(a.drop_first(), b);
    }
}

/// The selected sum splits over concatenation of the index sequences.
pub proof fn lemma_selected_sum_concat(a: Seq<usize>, b: Seq<usize>, table: Seq<u64>)
    ensures
        selected_sum(a + b, table) == selected_sum(a, table) + selected_sum(b, table),
    decreases a.len(),
{
    if a.len() == 0 {
        assert(a + b =~= b);
    } else {
        assert((a + b).drop_first() =~= a.drop_first() + b);
        lemma_selected_sum_concat(a.drop_first(), b, table);
    }
}

/// No index occurs twice.
pub open spec fn distinct_indices(s: Seq<usize>) -> bool {
    forall|i: int, j: int| 0 <= i < j < s.len() ==> s[i] != s[j]
}

/// Two duplicate-free index sequences with the same members have the same
/// length.
pub proof fn lemma_same_members_same_len(a: Seq<usize>, b: Seq<usize>)
    requires
        distinct_indices(a),
        distinct_indices(b),
        forall|y: usize| a.contains(y) <==> b.contains(y),
    ensures
        a.len() == b.len(),
{
    assert(a.no_duplicates());
    assert(b.no_duplicates());
    a.unique_seq_to_set();
    b.unique_seq_to_set();
    assert(a.to_set() =~= b.to_set());
}

/// A permutation of a duplicate-free sequence is duplicate-free.
pub proof fn lemma_permutation_keeps_distinct(a: Seq<usize>, b: Seq<usize>)
    requires
        distinct_indices(a),
        a.to_multiset() == b.to_multiset(),
    ensures
        distinct_indices(b),
{
    assert(a.no_duplicates());
    a.lemma_multiset_has_no_duplicates();
    assert forall|x: usize| b.to_multiset().contains(x) implies b.to_multiset().count(x) == 1 by {
        assert(a.to_multiset().contains(x));
    }
    b.lemma_multiset_has_no_duplicates_conv();
}

/// Inserting one index adds exactly its table entry to the selected sum.
pub proof fn lemma_selected_sum_insert(items: Seq<usize>, table: Seq<u64>, p: int, x: usize)
    requires
        0 <= p <= items.len(),
    ensures
        selected_sum(items.insert(p, x), table) == selected_sum(items, table) + (if (x as int)
            < table.len() {
            table[x as int] as int
        } else {
            0
        }),
{
    let front = items.subrange(0, p);
    let back = items.subrange(p, items.len() as int);
    assert(items.insert(p, x) == front.push(x) + back);
    assert(front.push(x) =~= front + seq![x]);
    lemma_selected_sum_concat(front + seq![x], back, table);
    lemma_selected_sum_concat(front, seq![x], table);
    assert(seq![x].drop_first() =~= Seq::<usize>::empty());
    assert(selected_sum(Seq::<usize>::empty(), table) == 0);
    assert(seq![x][0] == x);
    assert(selected_sum(seq![x], table) == (if (x as int) < table.len() {
        table[x as int] as int
    } else {
        0
    }));
    assert(items =~= front + back);
    lemma_selected_sum_concat(front, back, table);
}

/// Removing one index subtracts exactly its table entry from the selected
/// sum.
pub proof fn lemma_selected_sum_remove(items: Seq<usize>, table: Seq<u64>, p: int)
    requires
        0 <= p < items.len(),
    ensures
        selected_sum(items.remove(p), table) == selected_sum(items, table) - (if (
        items[p] as int) < table.len() {
            table[items[p] as int] as int
        } else {
            0
        }),
{
    lemma_selected_sum_insert(items.remove(p), table, p, items[p]);
    assert(items.remove(p).insert(p, items[p]) =~= items);
}

/// Every selected sum over a prefix is bounded by the whole selected sum.
pub proof fn lemma_selected_sum_prefix(items: Seq<usize>, table: Seq<u64>, k: int)
    requires
        0 <= k <= items.len(),
    ensures
        selected_sum(items.subrange(0, k), table) <= selected_sum(items, table),
{
    assert(items =~= items.subrange(0, k) + items.subrange(k, items.len() as int));
    lemma_selected_sum_concat(
        items.subrange(0, k),
        items.subrange(k, items.len() as int),
        table,
    );
    lemma_selected_sum_nonneg(items.subrange(k, items.len() as int), table);
}

/// One table entry together with the sum of everything after it never
/// exceeds the sum of the suffix that contains it.
proof fn lemma_suffix_bound(table: Seq<u64>, lo: int, j: int)
    requires
        0 <= lo <= j < table.len(),
    ensures
        table[j] + table_sum(table.skip(j + 1)) <= table_sum(table.skip(lo)),
    decreases j - lo,
{
    assert(table.skip(lo).drop_first() =~= table.skip(lo + 1));
    assert(table.skip(lo)[0] == table[lo]);
    if j == lo {
        assert(table_sum(table.skip(lo)) == table[lo] + table_sum(table.skip(lo + 1)));
    } else {
        lemma_suffix_bound(table, lo + 1, j);
        assert(table_sum(table.skip(lo)) == table[lo] + table_sum(table.skip(lo + 1)));
    }
}

/// A set of distinct in-range indices, all at least `lo`, selects at most
/// the sum of the table's suffix from `lo`.
proof fn lemma_selected_sum_le_suffix(items: Seq<usize>, table: Seq<u64>, lo: int)
    requires
        strictly_increasing(items),
        forall|k: int| 0 <= k < items.len() ==> (items[k] as int) < table.len(),
        forall|k: int| 0 <= k < items.len() ==> lo <= items[k] as int,
        0 <= lo <= table.len(),
    ensures
        selected_sum(items, table) <= table_sum(table.skip(lo)),
    decreases items.len(),
{
    lemma_table_sum_nonneg(table.skip(lo));
    if items.len() > 0 {
        let head = items[0] as int;
        let rest = items.drop_first();
        assert(forall|k: int| 0 <= k < rest.len() ==> rest[k] == items[k + 1]);
        lemma_selected_sum_le_suffix(rest, table, head + 1);
        lemma_suffix_bound(table, lo, head);
    }
}

/// A set of distinct in-range indices selects at most the whole table sum.
pub proof fn lemma_selected_sum_le_total(items: Seq<usize>, table: Seq<u64>)
    requires
        strictly_increasing(items),
        forall|k: int| 0 <= k < items.len() ==> (items[k] as int) < table.len(),
    ensures
        selected_sum(items, table) <= table_sum(table),
{
    lemma_selected_sum_le_suffix(items, table, 0);
    assert(table.skip(0) =~= table);
}

/// Inserting an index adds exactly it to the members.
pub proof fn lemma_insert_contains(s: Seq<usize>, p: int, x: usize)
    requires
        0 <= p <= s.len(),
    ensures
        forall|y: usize| s.insert(p, x).contains(y) <==> (s.contains(y) || y == x),
{
    s.insert_ensures(p, x);
    assert forall|y: usize| s.insert(p, x).contains(y) implies (s.contains(y) || y == x) by {
        let k = choose|k: int| 0 <= k < s.insert(p, x).len() && s.insert(p, x)[k] == y;
        if k < p {
            assert(s[k] == y);
        } else if k > p {
            assert(s[k - 1] == y);
        }
    }
    assert forall|y: usize| (s.contains(y) || y == x) implies s.insert(p, x).contains(y) by {
        if y == x {
            assert(s.insert(p, x)[p] == y);
        } else {
            let k = choose|k: int| 0 <= k < s.len() && s[k] == y;
            if k < p {
                assert(s.insert(p, x)[k] == y);
            } else {
                assert(s.insert(p, x)[k + 1] == y);
            }
        }
    }
}

/// Removing position `p` from a strictly increasing sequence takes exactly
/// that member out: distinct entries never occur twice.
pub proof fn lemma_remove_contains(s: Seq<usize>, p: int)
    requires
        strictly_increasing(s),
        0 <= p < s.len(),
    ensures
        forall|y: usize| s.remove(p).contains(y) <==> (s.contains(y) && y != s[p]),
{
    s.remove_ensures(p);
    assert forall|y: usize| s.remove(p).contains(y) implies (s.contains(y) && y != s[p]) by {
        let k = choose|k: int| 0 <= k < s.remove(p).len() && s.remove(p)[k] == y;
        if k < p {
            assert(s[k] == y);
            assert(s[k] < s[p]);
        } else {
            assert(s[k + 1] == y);
            assert(s[p] < s[k + 1]);
        }
    }
    assert forall|y: usize| (s.contains(y) && y != s[p]) implies s.remove(p).contains(y) by {
        let k = choose|k: int| 0 <= k < s.len() && s[k] == y;
        if k < p {
            assert(s.remove(p)[k] == y);
        } else {
            assert(k > p);
            assert(s.remove(p)[k - 1] == y);
        }
    }
}

/// The total of the table entries selected by a set of distinct in-range
/// indices; the bound on the whole table keeps the running total in range.
pub(crate) fn selected_total(items: &Vec<usize>, table: &Vec<u64>) -> (r: u64)
    requires
        strictly_increasing(items@),
        forall|k: int| 0 <= k < items@.len() ==> (items@[k] as int) < table@.len(),
        table_sum(table@) <= u64::MAX as int,
    ensures
        r as int == selected_sum(items@, table@),
{
    let mut total: u64 = 0;
    let mut i: usize = 0;
    while i < items.len()
        invariant
            i <= items@.len(),
            strictly_increasing(items@),
            forall|k: int| 0 <= k < items@.len() ==> (items@[k] as int) < table@.len(),
            table_sum(table@) <= u64::MAX as int,
            total as int == selected_sum(items@.subrange(0, i as int), table@),
        decreases items@.len() - i,
    {
        let idx = items[i];
        proof {
            let prefix = items@.subrange(0, i as int);
            assert(items@.subrange(0, (i + 1) as int) =~= prefix.insert(i as int, idx));
            lemma_selected_sum_insert(prefix, table@, i as int, idx);
            lemma_selected_sum_le_total(items@, table@);
            lemma_selected_sum_prefix(items@, table@, (i + 1) as int);
        }
        total = total + table[idx];
        i += 1;
    }
    proof {
        assert(items@.subrange(0, items@.len() as int) =~= items@);
    }
    total
}

/// Whether `x` is one of the held indices.
pub(crate) fn index_set_contains(v: &Vec<usize>, x: usize) -> (r: bool)
    ensures
        r <==> v@.contains(x),
{
    let mut i: usize = 0;
    while i < v.len()
        invariant
            i <= v@.len(),
            forall|k: int| 0 <= k < i ==> v@[k] != x,
        decreases v@.len() - i,
    {
        if v[i] == x {
            return true;
        }
        i += 1;
    }
    false
}

/// Insert a new index, keeping the vector strictly increasing; the position
/// it lands at is returned.
pub(crate) fn index_set_insert(v: &mut Vec<usize>, x: usize) -> (p: usize)
    requires
        strictly_increasing(old(v)@),
        !old(v)@.contains(x),
    ensures
        p <= old(v)@.len(),
        final(v)@ == old(v)@.insert(p as int, x),
        strictly_increasing(final(v)@),
    {
    let mut p: usize = 0;
    while p < v.len() && v[p] < x
        invariant
            p <= v@.len(),
            v@ == old(v)@,
            forall|k: int| 0 <= k < p ==> v@[k] < x,
        decreases v@.len() - p,
    {
        p += 1;
    }
    proof {
        if p < v@.len() {
            assert(v@[p as int] != x);
        }
    }
    v.insert(p, x);
    proof {
        old(v)@.insert_ensures(p as int, x);
        assert forall|i: int, j: int| 0 <= i < j < v@.len() implies v@[i] < v@[j] by {
            if j < p {
                assert(v@[i] == old(v)@[i] && v@[j] == old(v)@[j]);
            } else if j == p {
                assert(v@[i] == old(v)@[i]);
            } else if i < p {
                assert(v@[i] == old(v)@[i] && v@[j] == old(v)@[j - 1]);
            } else if i == p {
                assert(v@[j] == old(v)@[j - 1]);
                assert(old(v)@[j - 1] > x);
            } else {
                assert(v@[i] == old(v)@[i - 1] && v@[j] == old(v)@[j - 1]);
            }
        }
    }
    p
}

/// Remove a held index, keeping the vector strictly increasing; the position
/// it was removed from is returned.
pub(crate) fn index_set_remove(v: &mut Vec<usize>, x: usize) -> (p: usize)
    requires
        strictly_increasing(old(v)@),
        old(v)@.contains(x),
    ensures
        p < old(v)@.len(),
        old(v)@[p as int] == x,
        final(v)@ == old(v)@.remove(p as int),
        strictly_increasing(final(v)@),
{
    let mut p: usize = 0;
    while p < v.len()
        invariant
            p <= v@.len(),
            v@ == old(v)@,
            strictly_increasing(v@),
            v@.contains(x),
            forall|k: int| 0 <= k < p ==> v@[k] != x,
        decreases v@.len() - p,
    {
        if v[p] == x {
            let ghost pre = v@;
            v.remove(p);
            proof {
                pre.remove_ensures(p as int);
                assert forall|i: int, j: int| 0 <= i < j < v@.len() implies v@[i] < v@[j] by {
                    if j < p {
                        assert(v@[i] == pre[i] && v@[j] == pre[j]);
                    } else if i < p {
                        assert(v@[i] == pre[i] && v@[j] == pre[j + 1]);
                    } else {
                        assert(v@[i] == pre[i + 1] && v@[j] == pre[j + 1]);
                    }
                }
            }
            return p;
        }
        p += 1;
    }
    proof {
        let witness = choose|k: int| 0 <= k < v@.len() && v@[k] == x;
        assert(false);
    }
    unreached()
}

/// An element-by-element copy of an index vector.
pub(crate) fn copy_indices(v: &Vec<usize>) -> (r: Vec<usize>)
    ensures
        r@ == v@,
{
    let mut r: Vec<usize> = Vec::new();
    let mut i: usize = 0;
    while i < v.len()
        invariant
            i <= v@.len(),
            r@ == v@.subrange(0, i as int),
        decreases v@.len() - i,
    {
        r.push(v[i]);
        proof {
            assert(r@ =~= v@.subrange(0, i + 1 as int));
        }
        i += 1;
    }
    proof {
        assert(v@.subrange(0, v@.len() as int) =~= v@);
    }
    r
}

/// An element-by-element copy of a table of values.
pub(crate) fn copy_table(v: &Vec<u64>) -> (r: Vec<u64>)
    ensures
        r@ == v@,
{
    let mut r: Vec<u64> = Vec::new();
    let mut i: usize = 0;
    while i < v.len()
        invariant
            i <= v@.len(),
            r@ == v@.subrange(0, i as int),
        decreases v@.len() - i,
    {
        r.push(v[i]);
        proof {
            assert(r@ =~= v@.subrange(0, i + 1 as int));
        }
        i += 1;
    }
    proof {
        assert(v@.subrange(0, v@.len() as int) =~= v@);
    }
    r
}

} // verus!
