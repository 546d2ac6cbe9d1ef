use vstd::prelude::*;

verus! {

use vstd::multiset::Multiset;

use crate::strutil::lex_le;
use crate::strutil::lemma_lex_le_total;
use crate::strutil::lemma_lex_le_trans;
use crate::strutil::str_lex_le;
use crate::types::HostStat;
use crate::types::HostStatV;

/// The published snapshot's order: weight descending, then position
/// ascending, then alias ascending.
pub open spec fn snap_le(a: HostStatV, b: HostStatV) -> bool {
    a.weight > b.weight || (a.weight == b.weight && (a.pos < b.pos || (a.pos == b.pos && lex_le(
        a.alias,
        b.alias,
    ))))
}

/// Any two live entries are comparable under the snapshot order.
pub proof fn lemma_snap_le_total(a: HostStatV, b: HostStatV)
    ensures
        snap_le(a, b) || snap_le(b, a),
{
    if a.weight == b.weight && a.pos == b.pos {
        lemma_lex_le_total(a.alias, b.alias);
    }
}

/// The snapshot order is transitive.
pub proof fn lemma_snap_le_trans(a: HostStatV, b: HostStatV, c: HostStatV)
    requires
        snap_le(a, b),
        snap_le(b, c),
    ensures
        snap_le(a, c),
{
    if a.weight == b.weight && b.weight == c.weight && a.pos == b.pos && b.pos == c.pos {
        lemma_lex_le_trans(a.alias, b.alias, c.alias);
    }
}

/// Decide the snapshot order between two live entries.
fn snap_le_exec(a: &HostStat, b: &HostStat) -> (r: bool)
    ensures
        r == snap_le(a@, b@),
{
    if a.weight != b.weight {
        a.weight > b.weight
    } else if a.pos != b.pos {
        a.pos < b.pos
    } else {
        str_lex_le(a.alias.as_str(), b.alias.as_str())
    }
}

/// `s.insert(i, v)` holds the same values as `s`, plus `v`.
pub proof fn lemma_insert_to_multiset<A>(s: Seq<A>, i: int, v: A)
    requires
        0 <= i <= s.len(),
    ensures
        s.insert(i, v).to_multiset() == s.to_multiset().insert(v),
{
    broadcast use vstd::seq_lib::group_to_multiset_ensures;

    let pre = s.take(i);
    let post = s.skip(i);
    assert(s.insert(i, v) =~= pre + (seq![v] + post));
    assert(s =~= pre + post);
    vstd::seq_lib::lemma_multiset_commutative(pre, seq![v] + post);
    vstd::seq_lib::lemma_multiset_commutative(seq![v], post);
    vstd::seq_lib::lemma_multiset_commutative(pre, post);
    assert(seq![v] =~= Seq::<A>::empty().push(v));
    assert(Seq::<A>::empty().to_multiset() =~= Multiset::<A>::empty());
    assert(seq![v].to_multiset() =~= Multiset::<A>::empty().insert(v));
    assert(s.insert(i, v).to_multiset() =~= s.to_multiset().insert(v));
}

/// Sort the live entries into the snapshot order: stable insertion sort,
/// ending pairwise ordered and holding exactly the same entries.
pub fn sort_servers(v: &mut Vec<HostStat>)
    ensures
        final(v).deep_view().to_multiset() == old(v).deep_view().to_multiset(),
        forall|a: int, b: int|
            0 <= a < b < final(v).deep_view().len() ==> snap_le(
                #[trigger] final(v).deep_view()[a],
                #[trigger] final(v).deep_view()[b],
            ),
{
    let ghost orig = v.deep_view();
    let n = v.len();
    let mut i: usize = 1;
    while i < n
        invariant
            n == v@.len(),
            1 <= i,
            v.deep_view().to_multiset() == orig.to_multiset(),
            forall|a: int, b: int|
                0 <= a < b < i && b < n ==> snap_le(
                    #[trigger] v.deep_view()[a],
                    #[trigger] v.deep_view()[b],
                ),
        decreases n - i,
    {
        let ghost before_remove = v.deep_view();
        let x = v.remove(i);
        proof {
            broadcast use vstd::seq_lib::group_to_multiset_ensures;

            assert(v.deep_view() =~= before_remove.remove(i as int));
            assert(before_remove.remove(i as int).to_multiset() =~= before_remove.to_multiset()
                .remove(before_remove[i as int]));
            assert(x.deep_view() == before_remove[i as int]);
        }
        let ghost ar = v.deep_view();
        let mut p: usize = i;
        while p > 0 && !snap_le_exec(&v[p - 1], &x)
            invariant
                v@.len() == n - 1,
                p <= i,
                i < n,
                v.deep_view() == ar,
                forall|q: int| p <= q < i ==> !snap_le(#[trigger] ar[q], x.deep_view()),
            decreases p,
        {
            p = p - 1;
        }
        let ghost before_insert = v.deep_view();
        v.insert(p, x);
        proof {
            assert(v.deep_view() =~= before_insert.insert(p as int, x.deep_view()));
            lemma_insert_to_multiset(before_insert, p as int, x.deep_view());
            assert(v.deep_view().to_multiset() =~= orig.to_multiset());
            // the sorted prefix grew by one
            assert forall|a: int, b: int|
                0 <= a < b < i + 1 && b < n implies snap_le(
                #[trigger] v.deep_view()[a],
                #[trigger] v.deep_view()[b],
            ) by {
                let pd = p as int;
                let aa = if a < pd {
                    a
                } else {
                    a - 1
                };
                let bb = if b < pd {
                    b
                } else {
                    b - 1
                };
                if a == pd && b == pd {
                } else if a == pd {
                    // x against an element after the insertion point
                    assert(bb < i);
                    assert(!snap_le(ar[bb], x.deep_view()));
                    lemma_snap_le_total(before_insert[bb], x.deep_view());
                } else if b == pd {
                    // an element before the insertion point against x
                    if pd > 0 {
                        assert(snap_le(before_insert[pd - 1], x.deep_view()));
                        if aa < pd - 1 {
                            assert(snap_le(before_insert[aa], before_insert[pd - 1]));
                            lemma_snap_le_trans(
                                before_insert[aa],
                                before_insert[pd - 1],
                                x.deep_view(),
                            );
                        }
                    }
                } else {
                    assert(snap_le(before_insert[aa], before_insert[bb]));
                }
            }
        }
        i = i + 1;
    }
}

} // verus!
