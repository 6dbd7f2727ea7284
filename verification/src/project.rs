//! Column projection: narrowing a table to the columns whose name occurs in
//! a caller-supplied keep-list, preserving the original column order.
//!
//! `project_seq` is the mathematical model: walk the header from the left
//! and retain a position exactly when its name occurs in the keep-list.
//! Duplicate or absent names in the keep-list have no effect, and the order
//! of the keep-list is irrelevant; the proof functions at the end state
//! these laws.

use crate::cell::CellValue;
use crate::table::Csv;
use vstd::prelude::*;

verus! {

/// The elements of `s` retained under header `h` and keep-list `keep`:
/// position `i` survives exactly when `h[i]` occurs in `keep`, and the
/// survivors keep their relative order.
pub open spec fn project_seq<T>(s: Seq<T>, h: Seq<Seq<char>>, keep: Seq<Seq<char>>) -> Seq<T>
    recommends
        s.len() == h.len(),
    decreases h.len(),
{
    if h.len() == 0 {
        Seq::empty()
    } else if keep.contains(h[0]) {
        seq![s[0]] + project_seq(s.skip(1), h.skip(1), keep)
    } else {
        project_seq(s.skip(1), h.skip(1), keep)
    }
}

/// The elements of `s` at the positions where `m` holds.
pub open spec fn mask_project<T>(s: Seq<T>, m: Seq<bool>) -> Seq<T>
    recommends
        s.len() == m.len(),
    decreases m.len(),
{
    if m.len() == 0 {
        Seq::empty()
    } else if m[0] {
        seq![s[0]] + mask_project(s.skip(1), m.skip(1))
    } else {
        mask_project(s.skip(1), m.skip(1))
    }
}

/// How many positions `m` retains.
pub open spec fn count_true(m: Seq<bool>) -> int
    decreases m.len(),
{
    if m.len() == 0 {
        0
    } else {
        (if m[0] {
            1int
        } else {
            0int
        }) + count_true(m.skip(1))
    }
}

proof fn lemma_mask_project_len<T>(s: Seq<T>, m: Seq<bool>)
    requires
        s.len() == m.len(),
    ensures
        mask_project(s, m).len() == count_true(m),
    decreases m.len(),
{
    if m.len() > 0 {
        lemma_mask_project_len(s.skip(1), m.skip(1));
    }
}

/// A mask that records membership of each header name in the keep-list
/// projects exactly as the keep-list does.
proof fn lemma_mask_project_eq<T>(s: Seq<T>, h: Seq<Seq<char>>, keep: Seq<Seq<char>>, m: Seq<bool>)
    requires
        s.len() == h.len(),
        m.len() == h.len(),
        forall|i: int| 0 <= i < m.len() ==> m[i] == keep.contains(#[trigger] h[i]),
    ensures
        mask_project(s, m) == project_seq(s, h, keep),
    decreases h.len(),
{
    if h.len() > 0 {
        assert(m[0] == keep.contains(h[0]));
        assert(forall|i: int|
            0 <= i < m.skip(1).len() ==> m.skip(1)[i] == keep.contains(#[trigger] h.skip(1)[i]));
        lemma_mask_project_eq(s.skip(1), h.skip(1), keep, m.skip(1));
    }
}

proof fn lemma_mask_project_snoc<T>(s: Seq<T>, m: Seq<bool>, x: T, b: bool)
    requires
        s.len() == m.len(),
    ensures
        mask_project(s.push(x), m.push(b)) == if b {
            mask_project(s, m).push(x)
        } else {
            mask_project(s, m)
        },
    decreases m.len(),
{
    let sp = s.push(x);
    let mp = m.push(b);
    if m.len() == 0 {
        assert(mp[0] == b);
        assert(sp[0] == x);
        assert(sp.skip(1) =~= Seq::<T>::empty());
        assert(mp.skip(1) =~= Seq::<bool>::empty());
        assert(mask_project(sp.skip(1), mp.skip(1)) =~= Seq::<T>::empty());
        if b {
            assert(mask_project(sp, mp) =~= mask_project(s, m).push(x));
        } else {
            assert(mask_project(sp, mp) =~= mask_project(s, m));
        }
    } else {
        assert(mp[0] == m[0]);
        assert(sp[0] == s[0]);
        assert(sp.skip(1) =~= s.skip(1).push(x));
        assert(mp.skip(1) =~= m.skip(1).push(b));
        lemma_mask_project_snoc(s.skip(1), m.skip(1), x, b);
        let rec = mask_project(s.skip(1), m.skip(1));
        if m[0] {
            assert(mask_project(sp, mp) == seq![s[0]] + mask_project(sp.skip(1), mp.skip(1)));
            assert(mask_project(s, m) == seq![s[0]] + rec);
            if b {
                assert(seq![s[0]] + rec.push(x) =~= (seq![s[0]] + rec).push(x));
            }
        } else {
            assert(mask_project(sp, mp) == mask_project(sp.skip(1), mp.skip(1)));
            assert(mask_project(s, m) == rec);
        }
    }
}

/// Whether any of `names` equals `target`.
fn contains_name(names: &[String], target: &String) -> (r: bool)
    ensures
        r == names.deep_view().contains(target@),
{
    let mut j: usize = 0;
    while j < names.len()
        invariant
            j <= names@.len(),
            forall|k: int| 0 <= k < j ==> #[trigger] names.deep_view()[k] != target@,
        decreases names@.len() - j,
    {
        if names[j].eq(target) {
            proof {
                assert(names.deep_view()[j as int] =~= names@[j as int]@);
                assert(names.deep_view().contains(target@));
            }
            return true;
        }
        proof {
            assert(names.deep_view()[j as int] =~= names@[j as int]@);
        }
        j += 1;
    }
    proof {
        if names.deep_view().contains(target@) {
            let w = choose|k: int|
                0 <= k < names.deep_view().len() && names.deep_view()[k] == target@;
            assert(names.deep_view()[w] != target@);
        }
    }
    false
}

/// The strings of `v` at the positions where `mask` holds.
fn project_strings(v: &Vec<String>, mask: &Vec<bool>) -> (out: Vec<String>)
    requires
        v@.len() == mask@.len(),
    ensures
        out.deep_view() == mask_project(v.deep_view(), mask@),
{
    let mut out: Vec<String> = Vec::new();
    let mut k: usize = 0;
    proof {
        assert(out.deep_view() =~= mask_project(v.deep_view().take(0), mask@.take(0)));
    }
    while k < v.len()
        invariant
            k <= v@.len(),
            v@.len() == mask@.len(),
            out.deep_view() == mask_project(v.deep_view().take(k as int), mask@.take(k as int)),
        decreases v@.len() - k,
    {
        let ghost prev = out.deep_view();
        proof {
            assert(v.deep_view().take(k + 1) =~= v.deep_view().take(k as int).push(
                v.deep_view()[k as int],
            ));
            assert(mask@.take(k + 1) =~= mask@.take(k as int).push(mask@[k as int]));
            lemma_mask_project_snoc(
                v.deep_view().take(k as int),
                mask@.take(k as int),
                v.deep_view()[k as int],
                mask@[k as int],
            );
        }
        if mask[k] {
            let s = v[k].clone();
            out.push(s);
            proof {
                assert(out.deep_view() =~= prev.push(v.deep_view()[k as int]));
            }
        }
        k += 1;
    }
    proof {
        assert(v.deep_view().take(v@.len() as int) =~= v.deep_view());
        assert(mask@.take(mask@.len() as int) =~= mask@);
    }
    out
}

/// The cells of `row` at the positions where `mask` holds.
fn project_cells(row: Vec<CellValue>, mask: &Vec<bool>) -> (out: Vec<CellValue>)
    requires
        row@.len() == mask@.len(),
    ensures
        out.deep_view() == mask_project(row.deep_view(), mask@),
{
    let ghost orig = row.deep_view();
    let mut row = row;
    let mut out: Vec<CellValue> = Vec::new();
    let mut k: usize = 0;
    proof {
        assert(row.deep_view() =~= orig.skip(0));
        assert(out.deep_view() =~= mask_project(orig.take(0), mask@.take(0)));
    }
    while k < mask.len()
        invariant
            k <= mask@.len(),
            orig.len() == mask@.len(),
            row.deep_view() == orig.skip(k as int),
            out.deep_view() == mask_project(orig.take(k as int), mask@.take(k as int)),
        decreases mask@.len() - k,
    {
        let ghost prev = out.deep_view();
        proof {
            assert(row@.len() == row.deep_view().len());
            assert(orig.take(k + 1) =~= orig.take(k as int).push(orig[k as int]));
            assert(mask@.take(k + 1) =~= mask@.take(k as int).push(mask@[k as int]));
            lemma_mask_project_snoc(
                orig.take(k as int),
                mask@.take(k as int),
                orig[k as int],
                mask@[k as int],
            );
        }
        let ghost before = row@;
        let ghost dv_before = row.deep_view();
        let cell = row.remove(0);
        proof {
            assert(cell.deep_view() == dv_before[0]);
            assert(cell.deep_view() == orig[k as int]);
            assert(row@ =~= before.skip(1));
            assert forall|ii: int| 0 <= ii < row.deep_view().len() implies row.deep_view()[ii]
                == orig.skip(k + 1)[ii] by {
                assert(row.deep_view()[ii] == row@[ii].deep_view());
                assert(dv_before[ii + 1] == before[ii + 1].deep_view());
                assert(dv_before[ii + 1] == orig.skip(k as int)[ii + 1]);
            }
            assert(row.deep_view() =~= orig.skip(k + 1));
        }
        if mask[k] {
            out.push(cell);
            proof {
                assert(out.deep_view() =~= prev.push(orig[k as int]));
            }
        }
        k += 1;
    }
    proof {
        assert(orig.take(mask@.len() as int) =~= orig);
        assert(mask@.take(mask@.len() as int) =~= mask@);
    }
    out
}

impl Csv {
    /// Removes every column whose name does not occur in `columns_to_keep`,
    /// from the header and from every row. Retained columns keep their
    /// relative order from the original header; names in the keep-list that
    /// are absent from the header, and duplicates in the keep-list, have no
    /// effect.
    pub fn filter_csv(&mut self, columns_to_keep: &[String])
        requires
            old(self).wf(),
        ensures
            final(self).header.deep_view() == project_seq(
                old(self).header.deep_view(),
                old(self).header.deep_view(),
                columns_to_keep.deep_view(),
            ),
            final(self).content.deep_view().len() == old(self).content.deep_view().len(),
            forall|j: int|
                0 <= j < old(self).content.deep_view().len()
                    ==> #[trigger] final(self).content.deep_view()[j] == project_seq(
                    old(self).content.deep_view()[j],
                    old(self).header.deep_view(),
                    columns_to_keep.deep_view(),
                ),
            final(self).wf(),
            final(self).header@.len() == old(self).header.deep_view().filter(
                |n: Seq<char>| columns_to_keep.deep_view().contains(n),
            ).len(),
    {
        let ghost h0 = self.header.deep_view();
        let ghost k0 = columns_to_keep.deep_view();
        let ghost rows0 = self.content.deep_view();
        let mut mask: Vec<bool> = Vec::new();
        let mut i: usize = 0;
        while i < self.header.len()
            invariant
                *self == *old(self),
                h0 == self.header.deep_view(),
                k0 == columns_to_keep.deep_view(),
                i <= self.header@.len(),
                mask@.len() == i,
                forall|k: int| 0 <= k < i ==> mask@[k] == k0.contains(#[trigger] h0[k]),
            decreases self.header@.len() - i,
        {
            let b = contains_name(columns_to_keep, &self.header[i]);
            mask.push(b);
            proof {
                assert(h0[i as int] =~= self.header@[i as int]@);
            }
            i += 1;
        }
        let new_header = project_strings(&self.header, &mask);
        proof {
            lemma_mask_project_eq(h0, h0, k0, mask@);
        }
        let mut new_content: Vec<Vec<CellValue>> = Vec::new();
        while self.content.len() > 0
            invariant
                old(self).wf(),
                h0 == old(self).header.deep_view(),
                k0 == columns_to_keep.deep_view(),
                rows0 == old(self).content.deep_view(),
                mask@.len() == h0.len(),
                forall|k: int| 0 <= k < mask@.len() ==> mask@[k] == k0.contains(#[trigger] h0[k]),
                new_content@.len() + self.content@.len() == rows0.len(),
                self.content.deep_view() == rows0.skip(new_content@.len() as int),
                forall|j: int|
                    0 <= j < new_content@.len() ==> #[trigger] new_content.deep_view()[j]
                        == project_seq(rows0[j], h0, k0),
            decreases self.content@.len(),
        {
            let ghost done = new_content@.len() as int;
            proof {
                assert(self.content.deep_view().len() == self.content@.len());
                assert(rows0.skip(done)[0] == rows0[done]);
                assert(rows0[done].len() == h0.len());
            }
            let ghost before = self.content@;
            let ghost dv_before = self.content.deep_view();
            let row = self.content.remove(0);
            proof {
                assert(row.deep_view() == dv_before[0]);
                assert(row.deep_view() == rows0[done]);
                assert(row@.len() == row.deep_view().len());
                assert(self.content@ =~= before.skip(1));
                assert forall|ii: int| 0 <= ii < self.content.deep_view().len() implies self
                    .content.deep_view()[ii] == rows0.skip(done + 1)[ii] by {
                    assert(self.content.deep_view()[ii] == self.content@[ii].deep_view());
                    assert(dv_before[ii + 1] == before[ii + 1].deep_view());
                    assert(dv_before[ii + 1] == rows0.skip(done)[ii + 1]);
                }
                assert(self.content.deep_view() =~= rows0.skip(done + 1));
            }
            let projected = project_cells(row, &mask);
            proof {
                lemma_mask_project_eq(rows0[done], h0, k0, mask@);
            }
            let ghost dv_prev = new_content.deep_view();
            new_content.push(projected);
            proof {
                assert(new_content.deep_view() =~= dv_prev.push(projected.deep_view()));
                assert(new_content.deep_view()[done] == project_seq(rows0[done], h0, k0));
            }
        }
        self.header = new_header;
        self.content = new_content;
        proof {
            assert(self.header.deep_view() == project_seq(h0, h0, k0));
            assert(self.content.deep_view().len() == rows0.len());
            lemma_mask_project_len(h0, mask@);
            assert(self.header@.len() == self.header.deep_view().len());
            assert forall|j: int| 0 <= j < self.content.deep_view().len() implies (
            #[trigger] self.content.deep_view()[j]).len() == self.header@.len() by {
                lemma_mask_project_eq(rows0[j], h0, k0, mask@);
                lemma_mask_project_len(rows0[j], mask@);
            }
            lemma_project_is_filter(h0, k0);
        }
    }
}

/// Projection retains exactly the header names that occur in the keep-list,
/// in their original relative order: projecting the header equals filtering
/// it, left to right, by membership in the keep-list. In particular the
/// projected header's length is the count of original names present in the
/// keep-list, and the order of the keep-list plays no part.
pub proof fn lemma_project_is_filter(h: Seq<Seq<char>>, keep: Seq<Seq<char>>)
    ensures
        project_seq(h, h, keep) == h.filter(|n: Seq<char>| keep.contains(n)),
    decreases h.len(),
{
    reveal(Seq::filter);
    if h.len() == 0 {
        assert(project_seq(h, h, keep) =~= h.filter(|n: Seq<char>| keep.contains(n)));
    } else {
        let d = h.drop_last();
        let x = h.last();
        lemma_project_is_filter(d, keep);
        lemma_project_snoc(d, d, keep, x, x);
        assert(d.push(x) =~= h);
        if keep.contains(x) {
            assert(project_seq(h, h, keep) =~= h.filter(|n: Seq<char>| keep.contains(n)));
        } else {
            assert(project_seq(h, h, keep) =~= h.filter(|n: Seq<char>| keep.contains(n)));
        }
    }
}

/// Appending one column retains it exactly when its name is kept.
proof fn lemma_project_snoc<T>(s: Seq<T>, h: Seq<Seq<char>>, keep: Seq<Seq<char>>, x: T, n: Seq<
    char,
>)
    requires
        s.len() == h.len(),
    ensures
        project_seq(s.push(x), h.push(n), keep) == if keep.contains(n) {
            project_seq(s, h, keep).push(x)
        } else {
            project_seq(s, h, keep)
        },
    decreases h.len(),
{
    let sp = s.push(x);
    let hp = h.push(n);
    if h.len() == 0 {
        assert(hp[0] == n);
        assert(sp[0] == x);
        assert(sp.skip(1) =~= Seq::<T>::empty());
        assert(hp.skip(1) =~= Seq::<Seq<char>>::empty());
        assert(project_seq(sp.skip(1), hp.skip(1), keep) =~= Seq::<T>::empty());
        if keep.contains(n) {
            assert(project_seq(sp, hp, keep) =~= project_seq(s, h, keep).push(x));
        } else {
            assert(project_seq(sp, hp, keep) =~= project_seq(s, h, keep));
        }
    } else {
        assert(hp[0] == h[0]);
        assert(sp[0] == s[0]);
        assert(sp.skip(1) =~= s.skip(1).push(x));
        assert(hp.skip(1) =~= h.skip(1).push(n));
        lemma_project_snoc(s.skip(1), h.skip(1), keep, x, n);
        let rec = project_seq(s.skip(1), h.skip(1), keep);
        if keep.contains(h[0]) {
            assert(project_seq(sp, hp, keep) == seq![s[0]] + project_seq(
                sp.skip(1),
                hp.skip(1),
                keep,
            ));
            assert(project_seq(s, h, keep) == seq![s[0]] + rec);
            if keep.contains(n) {
                assert(seq![s[0]] + rec.push(x) =~= (seq![s[0]] + rec).push(x));
            }
        } else {
            assert(project_seq(sp, hp, keep) == project_seq(sp.skip(1), hp.skip(1), keep));
            assert(project_seq(s, h, keep) == rec);
        }
    }
}

/// Aligned sequences project to the same length under the same header.
proof fn lemma_project_len_eq<T>(s: Seq<T>, h: Seq<Seq<char>>, keep: Seq<Seq<char>>)
    requires
        s.len() == h.len(),
    ensures
        project_seq(s, h, keep).len() == project_seq(h, h, keep).len(),
    decreases h.len(),
{
    if h.len() > 0 {
        lemma_project_len_eq(s.skip(1), h.skip(1), keep);
        lemma_project_len_eq(h.skip(1), h.skip(1), keep);
        assert(h.skip(1).len() == h.len() - 1);
        lemma_project_head_tail(h, keep);
    }
}

/// Unfolds the projection of a header against itself by one position.
proof fn lemma_project_head_tail(h: Seq<Seq<char>>, keep: Seq<Seq<char>>)
    requires
        h.len() > 0,
    ensures
        project_seq(h, h, keep) == if keep.contains(h[0]) {
            seq![h[0]] + project_seq(h.skip(1), h.skip(1), keep)
        } else {
            project_seq(h.skip(1), h.skip(1), keep)
        },
{
}

/// Projecting under a header whose every name is kept changes nothing.
proof fn lemma_project_identity<T>(s: Seq<T>, h: Seq<Seq<char>>, keep: Seq<Seq<char>>)
    requires
        s.len() == h.len(),
        forall|i: int| 0 <= i < h.len() ==> keep.contains(#[trigger] h[i]),
    ensures
        project_seq(s, h, keep) == s,
    decreases h.len(),
{
    if h.len() == 0 {
        assert(project_seq(s, h, keep) =~= s);
    } else {
        assert(keep.contains(h[0]));
        assert(forall|i: int| 0 <= i < h.skip(1).len() ==> keep.contains(#[trigger] h.skip(1)[i]));
        lemma_project_identity(s.skip(1), h.skip(1), keep);
        assert(project_seq(s, h, keep) =~= s);
    }
}

/// Projection is idempotent: projecting a projected table again with the
/// same keep-list — the second time under the already-projected header —
/// changes neither the header nor an aligned row.
pub proof fn lemma_project_idempotent<T>(s: Seq<T>, h: Seq<Seq<char>>, keep: Seq<Seq<char>>)
    ensures
        ({
            let h2 = project_seq(h, h, keep);
            project_seq(h2, h2, keep) == h2
        }),
        s.len() == h.len() ==> ({
            let h2 = project_seq(h, h, keep);
            let s2 = project_seq(s, h, keep);
            project_seq(s2, h2, keep) == s2
        }),
{
    let h2 = project_seq(h, h, keep);
    lemma_project_is_filter(h, keep);
    assert forall|i: int| 0 <= i < h2.len() implies keep.contains(#[trigger] h2[i]) by {
        Seq::lemma_filter_pred(h, |n: Seq<char>| keep.contains(n), i);
    }
    lemma_project_identity(h2, h2, keep);
    if s.len() == h.len() {
        let s2 = project_seq(s, h, keep);
        lemma_project_len_eq(s, h, keep);
        lemma_project_identity(s2, h2, keep);
    }
}

/// The keep-list acts only through membership: keep-lists that contain the
/// same names, in whatever order and multiplicity, project identically.
pub proof fn lemma_project_keep_order_irrelevant<T>(
    s: Seq<T>,
    h: Seq<Seq<char>>,
    keep1: Seq<Seq<char>>,
    keep2: Seq<Seq<char>>,
)
    requires
        forall|n: Seq<char>| #[trigger] keep1.contains(n) <==> #[trigger] keep2.contains(n),
    ensures
        project_seq(s, h, keep1) == project_seq(s, h, keep2),
    decreases h.len(),
{
    if h.len() > 0 {
        assert(keep1.contains(h[0]) <==> keep2.contains(h[0]));
        lemma_project_keep_order_irrelevant(s.skip(1), h.skip(1), keep1, keep2);
    }
}

} // verus!
