//! Sequences of buckets: concatenation of all buckets, concatenation of a
//! selection of buckets, and the lemmas that let a bucket-by-bucket scan
//! stand in for a scan of everything.

use vstd::prelude::*;
use vstd::seq_lib::lemma_multiset_commutative;
use vstd::multiset::Multiset;

verus! {

/// Every bucket, concatenated in index order.
pub open spec fn cat_cells<A>(cs: Seq<Seq<A>>) -> Seq<A>
    decreases cs.len(),
{
    if cs.len() == 0 {
        Seq::empty()
    } else {
        cat_cells(cs.drop_last()) + cs.last()
    }
}

/// The selected buckets, concatenated in selection order.
pub open spec fn cat_sel<A>(cs: Seq<Seq<A>>, sel: Seq<int>) -> Seq<A>
    decreases sel.len(),
{
    if sel.len() == 0 {
        Seq::empty()
    } else {
        cat_sel(cs, sel.drop_last()) + cs[sel.last()]
    }
}

pub open spec fn strictly_increasing(sel: Seq<int>) -> bool {
    forall|i: int, j: int| 0 <= i < j < sel.len() ==> sel[i] < sel[j]
}

/// Appending one more selected bucket appends its contents.
pub proof fn lemma_cat_sel_push<A>(cs: Seq<Seq<A>>, sel: Seq<int>, c: int)
    ensures
        cat_sel(cs, sel.push(c)) == cat_sel(cs, sel) + cs[c],
{
    assert(sel.push(c).drop_last() =~= sel);
    assert(sel.push(c).last() == c);
}

/// Concatenating selections concatenates their contents.
pub proof fn lemma_cat_sel_add<A>(cs: Seq<Seq<A>>, a: Seq<int>, b: Seq<int>)
    ensures
        cat_sel(cs, a + b) == cat_sel(cs, a) + cat_sel(cs, b),
    decreases b.len(),
{
    if b.len() == 0 {
        assert(a + b =~= a);
        assert(cat_sel(cs, a) + cat_sel(cs, b) =~= cat_sel(cs, a));
    } else {
        assert((a + b).drop_last() =~= a + b.drop_last());
        assert((a + b).last() == b.last());
        lemma_cat_sel_add(cs, a, b.drop_last());
        assert(cat_sel(cs, a) + cat_sel(cs, b.drop_last()) + cs[b.last()] =~= cat_sel(cs, a) + (
        cat_sel(cs, b.drop_last()) + cs[b.last()]));
    }
}

/// A selection that never touches the last bucket reads the same from the
/// shortened bucket sequence.
proof fn lemma_cat_sel_drop_cell<A>(cs: Seq<Seq<A>>, sel: Seq<int>)
    requires
        cs.len() > 0,
        forall|i: int| 0 <= i < sel.len() ==> 0 <= #[trigger] sel[i] < cs.len() - 1,
    ensures
        cat_sel(cs.drop_last(), sel) == cat_sel(cs, sel),
    decreases sel.len(),
{
    if sel.len() > 0 {
        lemma_cat_sel_drop_cell(cs, sel.drop_last());
    }
}

/// A strictly increasing selection of buckets that misses only buckets with
/// no matching elements yields, after filtering, exactly the matching
/// elements of all buckets.
pub proof fn lemma_cat_sel_covers<A>(cs: Seq<Seq<A>>, sel: Seq<int>, pred: spec_fn(A) -> bool)
    requires
        strictly_increasing(sel),
        forall|i: int| 0 <= i < sel.len() ==> 0 <= #[trigger] sel[i] < cs.len(),
        forall|c: int|
            0 <= c < cs.len() && !sel.contains(c) ==> (#[trigger] cs[c]).filter(pred)
                == Seq::<A>::empty(),
    ensures
        cat_sel(cs, sel).filter(pred).to_multiset() == cat_cells(cs).filter(pred).to_multiset(),
    decreases cs.len(),
{
    reveal(Seq::filter);
    if cs.len() == 0 {
        if sel.len() > 0 {
            assert(0 <= sel[sel.len() - 1] < cs.len());
        }
        assert(cat_sel(cs, sel) == cat_cells(cs));
    } else {
        let last = cs.len() - 1;
        let tail = cs[last];
        if sel.len() > 0 && sel.last() == last {
            let sd = sel.drop_last();
            assert forall|i: int| 0 <= i < sd.len() implies 0 <= #[trigger] sd[i] < cs.len()
                - 1 by {
                assert(sd[i] == sel[i]);
                assert(sel[i] < sel[sel.len() - 1]);
            }
            assert forall|c: int|
                0 <= c < cs.drop_last().len() && !sd.contains(c) implies (#[trigger] cs.drop_last()[c]).filter(
                pred,
            ) == Seq::<A>::empty() by {
                if sel.contains(c) {
                    let i = choose|i: int| 0 <= i < sel.len() && sel[i] == c;
                    assert(i < sel.len() - 1);
                    assert(sd[i] == c);
                    assert(sd.contains(c));
                } else {
                    assert(cs.drop_last()[c] == cs[c]);
                }
            }
            lemma_cat_sel_drop_cell(cs, sd);
            lemma_cat_sel_covers(cs.drop_last(), sd, pred);
            Seq::filter_distributes_over_add(cat_sel(cs, sd), tail, pred);
            Seq::filter_distributes_over_add(cat_cells(cs.drop_last()), tail, pred);
            lemma_multiset_commutative(cat_sel(cs, sd).filter(pred), tail.filter(pred));
            lemma_multiset_commutative(cat_cells(cs.drop_last()).filter(pred), tail.filter(pred));
        } else {
            assert(!sel.contains(last)) by {
                if sel.contains(last) {
                    let i = choose|i: int| 0 <= i < sel.len() && sel[i] == last;
                    if i < sel.len() - 1 {
                        assert(sel[i] < sel[sel.len() - 1]);
                        assert(sel[sel.len() - 1] < cs.len());
                    }
                }
            }
            assert forall|i: int| 0 <= i < sel.len() implies 0 <= #[trigger] sel[i] < cs.len()
                - 1 by {
                if sel[i] == last {
                    assert(sel.contains(last));
                }
            }
            assert forall|c: int|
                0 <= c < cs.drop_last().len() && !sel.contains(c) implies (#[trigger] cs.drop_last()[c]).filter(
                pred,
            ) == Seq::<A>::empty() by {
                assert(cs.drop_last()[c] == cs[c]);
            }
            lemma_cat_sel_drop_cell(cs, sel);
            lemma_cat_sel_covers(cs.drop_last(), sel, pred);
            assert(tail.filter(pred) == Seq::<A>::empty());
            Seq::filter_distributes_over_add(cat_cells(cs.drop_last()), tail, pred);
            assert(cat_cells(cs).filter(pred) =~= cat_cells(cs.drop_last()).filter(pred));
        }
    }
}

/// Pushing one element onto one bucket adds exactly that element to the
/// concatenation of all buckets, up to order.
pub proof fn lemma_cat_cells_push<A>(cs: Seq<Seq<A>>, c: int, x: A)
    requires
        0 <= c < cs.len(),
    ensures
        cat_cells(cs.update(c, cs[c].push(x))).to_multiset() == cat_cells(cs).to_multiset().insert(
            x,
        ),
    decreases cs.len(),
{
    broadcast use vstd::seq_lib::group_to_multiset_ensures;

    let cs2 = cs.update(c, cs[c].push(x));
    if c == cs.len() - 1 {
        assert(cs2.drop_last() =~= cs.drop_last());
        assert(cs2.last() == cs.last().push(x));
        lemma_multiset_commutative(cat_cells(cs.drop_last()), cs.last().push(x));
        lemma_multiset_commutative(cat_cells(cs.drop_last()), cs.last());
        assert(cs.last().push(x).to_multiset() == cs.last().to_multiset().insert(x));
        assert(cat_cells(cs).to_multiset().insert(x) == cat_cells(cs.drop_last()).to_multiset().add(
            cs.last().to_multiset().insert(x),
        )) by {
            lemma_multiset_insert_add(
                cat_cells(cs.drop_last()).to_multiset(),
                cs.last().to_multiset(),
                x,
            );
        }
    } else {
        assert(cs2.drop_last() =~= cs.drop_last().update(c, cs.drop_last()[c].push(x)));
        assert(cs2.last() == cs.last());
        lemma_cat_cells_push(cs.drop_last(), c, x);
        lemma_multiset_commutative(cat_cells(cs2.drop_last()), cs.last());
        lemma_multiset_commutative(cat_cells(cs.drop_last()), cs.last());
        lemma_multiset_insert_add_left(
            cat_cells(cs.drop_last()).to_multiset(),
            cs.last().to_multiset(),
            x,
        );
    }
}

/// Every bucket empty means an empty concatenation.
pub proof fn lemma_cat_cells_all_empty<A>(cs: Seq<Seq<A>>)
    requires
        forall|c: int| 0 <= c < cs.len() ==> (#[trigger] cs[c]).len() == 0,
    ensures
        cat_cells(cs) == Seq::<A>::empty(),
    decreases cs.len(),
{
    if cs.len() > 0 {
        lemma_cat_cells_all_empty(cs.drop_last());
        assert(cat_cells(cs) =~= Seq::<A>::empty());
    }
}

/// The linear bucket indices of one row of a column selection.
pub open spec fn row_sel(cy: int, xs: Seq<usize>, cols: int) -> Seq<int>
    decreases xs.len(),
{
    if xs.len() == 0 {
        Seq::empty()
    } else {
        row_sel(cy, xs.drop_last(), cols).push(cy * cols + xs.last())
    }
}

/// The linear bucket indices of a whole block of rows and columns, rows
/// outermost.
pub open spec fn cross_sel(ys: Seq<usize>, xs: Seq<usize>, cols: int) -> Seq<int>
    decreases ys.len(),
{
    if ys.len() == 0 {
        Seq::empty()
    } else {
        cross_sel(ys.drop_last(), xs, cols) + row_sel(ys.last() as int, xs, cols)
    }
}

/// Each entry of a row selection, by index.
pub proof fn lemma_row_sel_entries(cy: int, xs: Seq<usize>, cols: int)
    ensures
        row_sel(cy, xs, cols).len() == xs.len(),
        forall|i: int|
            0 <= i < xs.len() ==> #[trigger] row_sel(cy, xs, cols)[i] == cy * cols + xs[i],
    decreases xs.len(),
{
    if xs.len() > 0 {
        lemma_row_sel_entries(cy, xs.drop_last(), cols);
        assert(forall|i: int|
            0 <= i < xs.len() - 1 ==> #[trigger] row_sel(cy, xs, cols)[i] == row_sel(
                cy,
                xs.drop_last(),
                cols,
            )[i]);
    }
}

/// Each entry of a block selection, by index: row-major order.
pub proof fn lemma_cross_sel_entries(ys: Seq<usize>, xs: Seq<usize>, cols: int)
    requires
        xs.len() > 0,
    ensures
        cross_sel(ys, xs, cols).len() == ys.len() * xs.len(),
        forall|i: int|
            0 <= i < ys.len() * xs.len() ==> #[trigger] cross_sel(ys, xs, cols)[i] == (ys[i / (
            xs.len() as int)] as int) * cols + xs[i % (xs.len() as int)],
    decreases ys.len(),
{
    let m = xs.len() as int;
    if ys.len() == 0 {
        assert(ys.len() * m == 0) by (nonlinear_arith)
            requires
                ys.len() == 0,
        ;
    } else {
        lemma_cross_sel_entries(ys.drop_last(), xs, cols);
        lemma_row_sel_entries(ys.last() as int, xs, cols);
        let prefix_len = (ys.len() - 1) * m;
        assert(cross_sel(ys, xs, cols).len() == prefix_len + m);
        assert(prefix_len + m == ys.len() * m) by (nonlinear_arith)
            requires
                prefix_len == (ys.len() - 1) * m,
        ;
        assert forall|i: int| 0 <= i < ys.len() * m implies #[trigger] cross_sel(ys, xs, cols)[i]
            == (ys[i / m] as int) * cols + xs[i % m] by {
            if i < prefix_len {
                assert(cross_sel(ys, xs, cols)[i] == cross_sel(ys.drop_last(), xs, cols)[i]);
                assert(0 <= i / m < ys.len() - 1 && ys.drop_last()[i / m] == ys[i / m]) by {
                    vstd::arithmetic::div_mod::lemma_div_pos_is_pos(i, m);
                    vstd::arithmetic::div_mod::lemma_multiply_divide_lt(i, m, ys.len() - 1);
                }
            } else {
                let r = i - prefix_len;
                assert(cross_sel(ys, xs, cols)[i] == row_sel(ys.last() as int, xs, cols)[r]);
                assert(i == (ys.len() - 1) * m + r && 0 <= r < m);
                vstd::arithmetic::div_mod::lemma_fundamental_div_mod_converse_div(
                    i,
                    m,
                    ys.len() - 1,
                    r,
                );
                vstd::arithmetic::div_mod::lemma_fundamental_div_mod_converse_mod(
                    i,
                    m,
                    ys.len() - 1,
                    r,
                );
            }
        }
    }
}

/// A block selection over increasing rows and columns is strictly
/// increasing and stays inside the grid.
pub proof fn lemma_cross_sel_increasing(ys: Seq<usize>, xs: Seq<usize>, cols: int, rows: int)
    requires
        xs.len() > 0,
        1 <= cols,
        1 <= rows,
        forall|i: int, j: int| 0 <= i < j < xs.len() ==> xs[i] < xs[j],
        forall|i: int, j: int| 0 <= i < j < ys.len() ==> ys[i] < ys[j],
        forall|i: int| 0 <= i < xs.len() ==> (#[trigger] xs[i]) < cols,
        forall|i: int| 0 <= i < ys.len() ==> (#[trigger] ys[i]) < rows,
    ensures
        strictly_increasing(cross_sel(ys, xs, cols)),
        forall|i: int|
            0 <= i < cross_sel(ys, xs, cols).len() ==> 0 <= #[trigger] cross_sel(ys, xs, cols)[i]
                < rows * cols,
{
    let m = xs.len() as int;
    lemma_cross_sel_entries(ys, xs, cols);
    assert forall|i: int|
        0 <= i < cross_sel(ys, xs, cols).len() implies 0 <= #[trigger] cross_sel(ys, xs, cols)[i]
        < rows * cols by {
        vstd::arithmetic::div_mod::lemma_div_pos_is_pos(i, m);
        vstd::arithmetic::div_mod::lemma_multiply_divide_lt(i, m, ys.len() as int);
        vstd::arithmetic::div_mod::lemma_mod_division_less_than_divisor(i, m);
        let yy = ys[i / m] as int;
        let xx = xs[i % m] as int;
        assert(0 <= yy * cols + xx < rows * cols) by (nonlinear_arith)
            requires
                0 <= yy < rows,
                0 <= xx < cols,
        ;
    }
    assert forall|i: int, j: int|
        0 <= i < j < cross_sel(ys, xs, cols).len() implies cross_sel(ys, xs, cols)[i] < cross_sel(
        ys,
        xs,
        cols,
    )[j] by {
        vstd::arithmetic::div_mod::lemma_div_pos_is_pos(i, m);
        vstd::arithmetic::div_mod::lemma_multiply_divide_lt(i, m, ys.len() as int);
        vstd::arithmetic::div_mod::lemma_mod_division_less_than_divisor(i, m);
        vstd::arithmetic::div_mod::lemma_div_pos_is_pos(j, m);
        vstd::arithmetic::div_mod::lemma_multiply_divide_lt(j, m, ys.len() as int);
        vstd::arithmetic::div_mod::lemma_mod_division_less_than_divisor(j, m);
        let yi = i / m;
        let yj = j / m;
        assert(yi <= yj) by {
            vstd::arithmetic::div_mod::lemma_div_is_ordered(i, j, m);
        }
        if yi == yj {
            assert(i % m < j % m) by {
                vstd::arithmetic::div_mod::lemma_fundamental_div_mod(i, m);
                vstd::arithmetic::div_mod::lemma_fundamental_div_mod(j, m);
            }
        } else {
            assert((ys[yi] as int) < (ys[yj] as int));
            assert((ys[yi] as int) * cols + xs[i % m] < (ys[yj] as int) * cols + xs[j % m])
                by (nonlinear_arith)
                requires
                    (ys[yi] as int) < (ys[yj] as int),
                    1 <= cols,
                    0 <= xs[i % m] < cols,
                    0 <= xs[j % m],
            ;
        }
    }
}

/// The block selection holds every pair of a selected row and a selected
/// column.
pub proof fn lemma_cross_sel_contains(ys: Seq<usize>, xs: Seq<usize>, cols: int, yi: int, xi: int)
    requires
        0 <= yi < ys.len(),
        0 <= xi < xs.len(),
    ensures
        cross_sel(ys, xs, cols).contains((ys[yi] as int) * cols + (xs[xi] as int)),
{
    lemma_cross_sel_entries(ys, xs, cols);
    let m = xs.len() as int;
    let i = yi * m + xi;
    vstd::arithmetic::div_mod::lemma_fundamental_div_mod_converse_div(i, m, yi, xi);
    vstd::arithmetic::div_mod::lemma_fundamental_div_mod_converse_mod(i, m, yi, xi);
    assert(0 <= i < ys.len() * m) by (nonlinear_arith)
        requires
            0 <= yi < ys.len(),
            0 <= xi < m,
            i == yi * m + xi,
    ;
    assert(cross_sel(ys, xs, cols)[i] == (ys[yi] as int) * cols + (xs[xi] as int));
}

/// Filtering after a push keeps the pushed element exactly when it matches.
pub proof fn lemma_filter_push<A>(s: Seq<A>, pred: spec_fn(A) -> bool, x: A)
    ensures
        s.push(x).filter(pred) == if pred(x) {
            s.filter(pred).push(x)
        } else {
            s.filter(pred)
        },
{
    reveal(Seq::filter);
    assert(s.push(x).drop_last() =~= s);
}

/// Filtering a sequence with no matching elements yields nothing.
pub proof fn lemma_filter_none<A>(s: Seq<A>, pred: spec_fn(A) -> bool)
    requires
        forall|i: int| 0 <= i < s.len() ==> !pred(#[trigger] s[i]),
    ensures
        s.filter(pred) == Seq::<A>::empty(),
    decreases s.len(),
{
    reveal(Seq::filter);
    if s.len() > 0 {
        lemma_filter_none(s.drop_last(), pred);
    }
}

/// How often an element survives a filter: as often as it occurs, when it
/// matches, and never otherwise.
pub proof fn lemma_filter_count<A>(s: Seq<A>, pred: spec_fn(A) -> bool, e: A)
    ensures
        s.filter(pred).to_multiset().count(e) == if pred(e) {
            s.to_multiset().count(e)
        } else {
            0
        },
    decreases s.len(),
{
    broadcast use vstd::seq_lib::group_to_multiset_ensures;

    reveal(Seq::filter);
    if s.len() == 0 {
        assert(s.to_multiset() =~= Multiset::empty());
        assert(s.filter(pred).to_multiset() =~= Multiset::empty());
    } else {
        lemma_filter_count(s.drop_last(), pred, e);
        assert(s =~= s.drop_last().push(s.last()));
        assert(s.to_multiset() == s.drop_last().to_multiset().insert(s.last()));
        if pred(s.last()) {
            assert(s.filter(pred).to_multiset() == s.drop_last().filter(
                pred,
            ).to_multiset().insert(s.last()));
        }
    }
}

/// Sequences with the same elements keep the same elements under any
/// filter.
pub proof fn lemma_filter_multiset<A>(s1: Seq<A>, s2: Seq<A>, pred: spec_fn(A) -> bool)
    requires
        s1.to_multiset() == s2.to_multiset(),
    ensures
        s1.filter(pred).to_multiset() == s2.filter(pred).to_multiset(),
{
    assert forall|e: A|
        s1.filter(pred).to_multiset().count(e) == s2.filter(pred).to_multiset().count(
            e,
        ) by {
        lemma_filter_count(s1, pred, e);
        lemma_filter_count(s2, pred, e);
    }
    assert(s1.filter(pred).to_multiset() =~= s2.filter(pred).to_multiset());
}

/// Inserting into the right summand of a multiset sum inserts into the sum.
proof fn lemma_multiset_insert_add<A>(a: Multiset<A>, b: Multiset<A>, x: A)
    ensures
        a.add(b).insert(x) == a.add(b.insert(x)),
{
    assert(a.add(b).insert(x) =~= a.add(b.insert(x)));
}

/// Inserting into the left summand of a multiset sum inserts into the sum.
proof fn lemma_multiset_insert_add_left<A>(a: Multiset<A>, b: Multiset<A>, x: A)
    ensures
        a.insert(x).add(b) == a.add(b).insert(x),
{
    assert(a.insert(x).add(b) =~= a.add(b).insert(x));
}

} // verus!
