//! Undo: each edit records what it takes to reverse it, and a stack bounded by
//! a number of steps and by a byte budget holds those records.
use vstd::prelude::*;
use crate::chars::texts;
use crate::edit::{
    apply_permutation, inverse_upto, is_data_permutation, lemma_inverse_roundtrip, permuted,
};

verus! {

broadcast use {vstd::std_specs::vec::axiom_vec_decreases_to_view, vstd::std_specs::vec::axiom_vec_index_decreases};

/// One undo step: what it takes to reverse one edit.
#[derive(Debug, PartialEq, Eq)]
pub enum EditOp {
    /// Puts back the earlier text of some lines: (line index, earlier text).
    Replace(Vec<(usize, String)>),
    /// Removes `count` inserted lines starting at `at`.
    RemoveInserted { at: usize, count: usize },
    /// Puts removed lines back at `at`.
    ReinsertRemoved { at: usize, lines: Vec<String> },
    /// Undoes a reordering; `inverse[i]` is where the line now at
    /// `data_start + i` came from. The header lines stay.
    Reorder { inverse: Vec<u32>, data_start: usize },
    /// Several steps undone as one, in the order held.
    Batch(Vec<EditOp>),
}

/// Default undo depth.
pub const UNDO_LIMIT: usize = 100;

/// Default byte budget of the undo stack.
pub const UNDO_BYTE_BUDGET: usize = 536870912;

/// The UTF-8 length of `s`.
pub open spec fn str_len(s: String) -> int {
    vstd::utf8::encode_utf8(s@).len() as int
}

/// Sum of the UTF-8 lengths of the second components.
pub open spec fn item_chars(items: Seq<(usize, String)>) -> int
    decreases items.len(),
{
    if items.len() == 0 {
        0
    } else {
        item_chars(items.drop_last()) + str_len(items.last().1)
    }
}

/// Sum of the UTF-8 lengths.
pub open spec fn line_chars(ls: Seq<String>) -> int
    decreases ls.len(),
{
    if ls.len() == 0 {
        0
    } else {
        line_chars(ls.drop_last()) + str_len(ls.last())
    }
}

/// The rough number of heap bytes that a step holds: the text it keeps plus
/// a fixed cost per element.
pub open spec fn op_size(op: EditOp) -> int
    decreases op, 0nat,
{
    match op {
        EditOp::Replace(items) => items@.len() * 32 + item_chars(items@),
        EditOp::RemoveInserted { .. } => 0,
        EditOp::ReinsertRemoved { lines, .. } => lines@.len() * 24 + line_chars(lines@),
        EditOp::Reorder { inverse, .. } => (inverse@.len() * 4) as int,
        EditOp::Batch(ops) => ops_size(ops@, ops@.len() as int),
    }
}

/// Sum of `op_size` over the first `k` steps of `ops`.
pub open spec fn ops_size(ops: Seq<EditOp>, k: int) -> int
    decreases ops, k,
{
    if k <= 0 || k > ops.len() {
        0
    } else {
        ops_size(ops, k - 1) + op_size(ops[k - 1])
    }
}


pub proof fn lemma_item_chars(items: Seq<(usize, String)>, i: int)
    requires
        0 <= i <= items.len(),
    ensures
        0 <= item_chars(items.take(i)) <= item_chars(items),
    decreases items.len(),
{
    if items.len() > 0 {
        if i == items.len() {
            assert(items.take(i) =~= items);
            lemma_item_chars(items.drop_last(), items.len() - 1);
            assert(items.drop_last().take(items.len() - 1) =~= items.drop_last());
        } else {
            lemma_item_chars(items.drop_last(), i);
            assert(items.drop_last().take(i) =~= items.take(i));
        }
    }
}

pub proof fn lemma_line_chars(ls: Seq<String>, i: int)
    requires
        0 <= i <= ls.len(),
    ensures
        0 <= line_chars(ls.take(i)) <= line_chars(ls),
    decreases ls.len(),
{
    if ls.len() > 0 {
        if i == ls.len() {
            assert(ls.take(i) =~= ls);
            lemma_line_chars(ls.drop_last(), ls.len() - 1);
            assert(ls.drop_last().take(ls.len() - 1) =~= ls.drop_last());
        } else {
            lemma_line_chars(ls.drop_last(), i);
            assert(ls.drop_last().take(i) =~= ls.take(i));
        }
    }
}

pub proof fn lemma_op_size_nonneg(op: EditOp)
    ensures
        op_size(op) >= 0,
    decreases op, 0nat,
{
    match op {
        EditOp::Replace(items) => {
            lemma_item_chars(items@, 0);
        },
        EditOp::ReinsertRemoved { lines, .. } => {
            lemma_line_chars(lines@, 0);
        },
        EditOp::Batch(ops) => {
            lemma_ops_size_mono(ops@, ops@.len() as int, ops@.len() as int);
        },
        _ => {},
    }
}

pub proof fn lemma_ops_size_mono(ops: Seq<EditOp>, j: int, k: int)
    requires
        0 <= j <= k <= ops.len(),
    ensures
        0 <= ops_size(ops, j) <= ops_size(ops, k),
    decreases ops, k,
{
    if k > 0 {
        lemma_op_size_nonneg(ops[k - 1]);
        if j < k {
            lemma_ops_size_mono(ops, j, k - 1);
        } else {
            lemma_ops_size_mono(ops, j - 1, k - 1);
        }
    }
}

/// The rough number of heap bytes that a step holds (see `op_size`).
pub fn op_bytes(op: &EditOp) -> (n: usize)
    requires
        op_size(*op) <= usize::MAX,
    ensures
        n == op_size(*op),
    decreases op,
{
    match op {
        EditOp::Replace(items) => {
            proof {
                lemma_item_chars(items@, 0);
            }
            let mut sum: usize = items.len() * 32;
            let mut i: usize = 0;
            while i < items.len()
                invariant
                    i <= items@.len(),
                    items@.len() * 32 + item_chars(items@) <= usize::MAX,
                    sum == items@.len() * 32 + item_chars(items@.take(i as int)),
                decreases items@.len() - i,
            {
                proof {
                    lemma_item_chars(items@, i + 1);
                    assert(items@.take(i + 1).drop_last() =~= items@.take(i as int));
                }
                sum = sum + items[i].1.as_str().len();
                i += 1;
            }
            assert(items@.take(items@.len() as int) =~= items@);
            sum
        },
        EditOp::RemoveInserted { .. } => 0,
        EditOp::ReinsertRemoved { lines, .. } => {
            proof {
                lemma_line_chars(lines@, 0);
            }
            let mut sum: usize = lines.len() * 24;
            let mut i: usize = 0;
            while i < lines.len()
                invariant
                    i <= lines@.len(),
                    lines@.len() * 24 + line_chars(lines@) <= usize::MAX,
                    sum == lines@.len() * 24 + line_chars(lines@.take(i as int)),
                decreases lines@.len() - i,
            {
                proof {
                    lemma_line_chars(lines@, i + 1);
                    assert(lines@.take(i + 1).drop_last() =~= lines@.take(i as int));
                }
                sum = sum + lines[i].as_str().len();
                i += 1;
            }
            assert(lines@.take(lines@.len() as int) =~= lines@);
            sum
        },
        EditOp::Reorder { inverse, .. } => inverse.len() * 4,
        EditOp::Batch(ops) => {
            let mut sum: usize = 0;
            let mut i: usize = 0;
            while i < ops.len()
                invariant
                    i <= ops@.len(),
                    *op == EditOp::Batch(*ops),
                    ops_size(ops@, ops@.len() as int) <= usize::MAX,
                    sum == ops_size(ops@, i as int),
                decreases ops@.len() - i,
            {
                proof {
                    lemma_ops_size_mono(ops@, i + 1, ops@.len() as int);
                    lemma_ops_size_mono(ops@, i as int, i + 1);
                    assert(decreases_to!(*ops => ops[i as int]));
                    assert(decreases_to!(*op => (*op)->Batch_0));
                    assert(decreases_to!(*op => ops[i as int]));
                }
                let b = op_bytes(&ops[i]);
                sum = sum + b;
                i += 1;
            }
            sum
        },
    }
}


/// The text after the first `k` restorations of `items` (later ones win;
/// rows past the end are skipped).
pub open spec fn replaced(t: Seq<Seq<char>>, items: Seq<(usize, String)>, k: int) -> Seq<Seq<char>>
    decreases k,
{
    if k <= 0 || k > items.len() {
        t
    } else {
        let t1 = replaced(t, items, k - 1);
        let row = items[k - 1].0 as int;
        if row < t1.len() {
            t1.update(row, items[k - 1].1@)
        } else {
            t1
        }
    }
}

/// The text after undoing one step.
pub open spec fn apply_op(t: Seq<Seq<char>>, op: EditOp) -> Seq<Seq<char>>
    decreases op, 0nat,
{
    match op {
        EditOp::Replace(items) => replaced(t, items@, items@.len() as int),
        EditOp::RemoveInserted { at, count } => {
            let end = if at + count <= t.len() {
                at + count
            } else {
                t.len() as int
            };
            if at < end {
                t.take(at as int) + t.skip(end)
            } else {
                t
            }
        },
        EditOp::ReinsertRemoved { at, lines } => {
            let a = if at <= t.len() {
                at as int
            } else {
                t.len() as int
            };
            t.take(a) + texts(lines@) + t.skip(a)
        },
        EditOp::Reorder { inverse, data_start } => permuted(t, inverse@, data_start as int),
        EditOp::Batch(ops) => apply_ops(t, ops@, ops@.len() as int),
    }
}

/// The text after undoing the first `k` steps of `ops`, in order.
pub open spec fn apply_ops(t: Seq<Seq<char>>, ops: Seq<EditOp>, k: int) -> Seq<Seq<char>>
    decreases ops, k,
{
    if k <= 0 || k > ops.len() {
        t
    } else {
        apply_op(apply_ops(t, ops, k - 1), ops[k - 1])
    }
}

/// After the first `k` records, each line holds the text of the last record
/// for it, or its own text when none names it.
proof fn lemma_replaced_rows(t: Seq<Seq<char>>, items: Seq<(usize, String)>, k: int)
    requires
        0 <= k <= items.len(),
    ensures
        replaced(t, items, k).len() == t.len(),
        forall|r: int|
            0 <= r < t.len() && !(exists|i: int| 0 <= i < k && items[i].0 == r) ==> #[trigger] replaced(
                t,
                items,
                k,
            )[r] == t[r],
        forall|i: int|
            0 <= i < k && items[i].0 < t.len() && (forall|j: int| i < j < k ==> items[j].0
                != items[i].0) ==> replaced(t, items, k)[items[i].0 as int] == items[i].1@,
    decreases k,
{
    if k > 0 {
        lemma_replaced_rows(t, items, k - 1);
        let prev = replaced(t, items, k - 1);
        assert forall|r: int|
            0 <= r < t.len() && !(exists|i: int| 0 <= i < k && items[i].0 == r) implies #[trigger] replaced(
            t,
            items,
            k,
        )[r] == t[r] by {
            assert(items[k - 1].0 != r);
            assert(!(exists|i: int| 0 <= i < k - 1 && items[i].0 == r)) by {
                if exists|i: int| 0 <= i < k - 1 && items[i].0 == r {
                    let i = choose|i: int| 0 <= i < k - 1 && items[i].0 == r;
                    assert(0 <= i < k && items[i].0 == r);
                }
            }
        }
    }
}

/// Undoing a change of values: a `Replace` that holds the earlier text of
/// every changed line (and only earlier texts) gives back the lines as they
/// were.
pub proof fn lemma_replace_restores(
    before: Seq<Seq<char>>,
    after: Seq<Seq<char>>,
    items: Seq<(usize, String)>,
)
    requires
        after.len() == before.len(),
        forall|i: int|
            0 <= i < items.len() ==> (#[trigger] items[i].0 as int) < before.len() && items[i].1@
                == before[items[i].0 as int],
        forall|r: int|
            0 <= r < before.len() && after[r] != before[r] ==> exists|i: int|
                0 <= i < items.len() && #[trigger] items[i].0 == r,
    ensures
        replaced(after, items, items.len() as int) == before,
{
    let k = items.len() as int;
    lemma_replaced_rows(after, items, k);
    let res = replaced(after, items, k);
    assert forall|r: int| 0 <= r < before.len() implies res[r] == before[r] by {
        if exists|i: int| 0 <= i < k && items[i].0 == r {
            lemma_replace_row(before, after, items, r);
        }
    }
    assert(res =~= before);
}

/// A line that some record names ends with the earlier text of the last such
/// record.
proof fn lemma_replace_row(
    before: Seq<Seq<char>>,
    after: Seq<Seq<char>>,
    items: Seq<(usize, String)>,
    r: int,
)
    requires
        after.len() == before.len(),
        forall|i: int|
            0 <= i < items.len() ==> (#[trigger] items[i].0 as int) < before.len() && items[i].1@
                == before[items[i].0 as int],
        exists|i: int| 0 <= i < items.len() && items[i].0 == r,
    ensures
        replaced(after, items, items.len() as int)[r] == before[r],
{
    let k = items.len() as int;
    let i0 = choose|i: int| 0 <= i < k && items[i].0 == r;
    lemma_last_record(items, r, i0, k);
    let last = choose|i: int|
        i0 <= i < k && items[i].0 == r && (forall|j: int| i < j < k ==> items[j].0 != r);
    lemma_replaced_rows(after, items, k);
    assert(items[last].0 < after.len());
}

/// Among the records `from..k`, one for row `r` exists after which none is.
proof fn lemma_last_record(items: Seq<(usize, String)>, r: int, from: int, k: int)
    requires
        0 <= from < k <= items.len(),
        items[from].0 == r,
    ensures
        exists|i: int|
            from <= i < k && items[i].0 == r && (forall|j: int| i < j < k ==> items[j].0 != r),
    decreases k - from,
{
    if exists|j: int| from < j < k && items[j].0 == r {
        let j = choose|j: int| from < j < k && items[j].0 == r;
        lemma_last_record(items, r, j, k);
    } else {
        assert(forall|j: int| from < j < k ==> items[j].0 != r);
    }
}

/// Undoing an insertion: removing the `count` lines inserted at `at` gives back
/// the lines as they were.
pub proof fn lemma_remove_inserted_restores(t: Seq<Seq<char>>, at: usize, inserted: Seq<Seq<char>>)
    requires
        at <= t.len(),
        at + inserted.len() <= usize::MAX,
    ensures
        apply_op(
            t.take(at as int) + inserted + t.skip(at as int),
            EditOp::RemoveInserted { at, count: inserted.len() as usize },
        ) == t,
{
    let u = t.take(at as int) + inserted + t.skip(at as int);
    if inserted.len() > 0 {
        assert(u.take(at as int) + u.skip(at + inserted.len()) =~= t);
    } else {
        assert(u =~= t);
    }
}

/// Undoing a removal: putting the removed lines back where they were gives
/// back the lines as they were.
pub proof fn lemma_reinsert_restores(t: Seq<Seq<char>>, at: usize, removed: Vec<String>)
    requires
        at + removed@.len() <= t.len(),
        texts(removed@) == t.subrange(at as int, at + removed@.len()),
    ensures
        apply_op(
            t.take(at as int) + t.skip(at + removed@.len()),
            EditOp::ReinsertRemoved { at, lines: removed },
        ) == t,
{
    let u = t.take(at as int) + t.skip(at + removed@.len());
    assert(u.take(at as int) + texts(removed@) + u.skip(at as int) =~= t);
}

/// Undoing a reordering: the `Reorder` step built from the inverse of a data
/// permutation gives back the lines as they were.
pub proof fn lemma_reorder_restores(t: Seq<Seq<char>>, order: Seq<u32>, ds: usize, inverse: Vec<u32>)
    requires
        t.len() == ds + order.len(),
        is_data_permutation(order, ds as int),
        inverse@ == inverse_upto(order, ds as int, order.len() as int),
    ensures
        apply_op(permuted(t, order, ds as int), EditOp::Reorder { inverse, data_start: ds }) == t,
{
    lemma_inverse_roundtrip(t, order, ds as int);
}

/// Whether undoing `op` stays within `usize` arithmetic.
pub open spec fn op_fits(op: EditOp) -> bool
    decreases op, 0nat,
{
    match op {
        EditOp::RemoveInserted { at, count } => at + count <= usize::MAX,
        EditOp::Batch(ops) => ops_fit(ops@, ops@.len() as int),
        _ => true,
    }
}

/// Whether the first `k` steps of `ops` all fit.
pub open spec fn ops_fit(ops: Seq<EditOp>, k: int) -> bool
    decreases ops, k,
{
    if k <= 0 || k > ops.len() {
        true
    } else {
        ops_fit(ops, k - 1) && op_fits(ops[k - 1])
    }
}

pub proof fn lemma_ops_fit(ops: Seq<EditOp>, j: int, k: int)
    requires
        0 <= j < k <= ops.len(),
        ops_fit(ops, k),
    ensures
        op_fits(ops[j]),
        ops_fit(ops, j),
    decreases k,
{
    if j < k - 1 {
        lemma_ops_fit(ops, j, k - 1);
    }
}

/// Undoes one step on `lines`; a `Batch` undoes its steps in the order held.
/// Rows past the end are skipped.
fn apply_undo_op(lines: &mut Vec<String>, op: &EditOp)
    requires
        op_fits(*op),
    ensures
        texts(final(lines)@) == apply_op(texts(old(lines)@), *op),
    decreases op,
{
    match op {
        EditOp::Replace(items) => {
            let mut k: usize = 0;
            while k < items.len()
                invariant
                    k <= items@.len(),
                    texts(lines@) == replaced(texts(old(lines)@), items@, k as int),
                decreases items@.len() - k,
            {
                let row = items[k].0;
                if row < lines.len() {
                    let text = items[k].1.clone();
                    let ghost before = lines@;
                    lines.set(row, text);
                    assert(texts(lines@) =~= texts(before).update(row as int, text@));
                }
                k += 1;
            }
        },
        EditOp::RemoveInserted { at, count } => {
            let n = lines.len();
            let end = if *at + *count <= n {
                *at + *count
            } else {
                n
            };
            if *at < end {
                let ghost l0 = lines@;
                let mut rest = lines.split_off(end);
                lines.truncate(*at);
                lines.append(&mut rest);
                assert(lines@ =~= l0.take(*at as int) + l0.skip(end as int));
                assert(texts(lines@) =~= texts(l0).take(*at as int) + texts(l0).skip(end as int));
            }
        },
        EditOp::ReinsertRemoved { at, lines: removed } => {
            let n = lines.len();
            let a = if *at <= n {
                *at
            } else {
                n
            };
            let ghost l0 = lines@;
            let mut rest = lines.split_off(a);
            let mut k: usize = 0;
            while k < removed.len()
                invariant
                    k <= removed@.len(),
                    texts(lines@) == texts(l0).take(a as int) + texts(removed@).take(k as int),
                decreases removed@.len() - k,
            {
                let x = removed[k].clone();
                let ghost before = lines@;
                lines.push(x);
                assert(texts(lines@) =~= texts(before).push(x@));
                assert(texts(removed@).take(k + 1) =~= texts(removed@).take(k as int).push(x@));
                k += 1;
            }
            let ghost mid = lines@;
            lines.append(&mut rest);
            assert(texts(removed@).take(removed@.len() as int) =~= texts(removed@));
            assert(lines@ =~= mid + l0.skip(a as int));
            assert(texts(lines@) =~= texts(mid) + texts(l0).skip(a as int));
        },
        EditOp::Reorder { inverse, data_start } => {
            apply_permutation(lines, inverse, *data_start);
        },
        EditOp::Batch(ops) => {
            let mut i: usize = 0;
            while i < ops.len()
                invariant
                    i <= ops@.len(),
                    *op == EditOp::Batch(*ops),
                    ops_fit(ops@, ops@.len() as int),
                    texts(lines@) == apply_ops(texts(old(lines)@), ops@, i as int),
                decreases ops@.len() - i,
            {
                proof {
                    lemma_ops_fit(ops@, i as int, ops@.len() as int);
                    assert(decreases_to!(*ops => ops[i as int]));
                    assert(decreases_to!(*op => (*op)->Batch_0));
                }
                apply_undo_op(lines, &ops[i]);
                i += 1;
            }
        },
    }
}


/// Sum of the entries.
pub open spec fn total(s: Seq<usize>) -> int
    decreases s.len(),
{
    if s.len() == 0 {
        0
    } else {
        s[0] + total(s.skip(1))
    }
}

pub proof fn lemma_total_skip(s: Seq<usize>, i: int, j: int)
    requires
        0 <= i <= j <= s.len(),
    ensures
        0 <= total(s.skip(j)) <= total(s.skip(i)),
    decreases j - i + s.len() - j,
{
    if j < s.len() {
        assert(s.skip(j).skip(1) =~= s.skip(j + 1));
        lemma_total_skip(s, j + 1, j + 1);
    } else {
        assert(s.skip(j) =~= Seq::<usize>::empty());
    }
    if i < j {
        lemma_total_skip(s, i + 1, j);
        assert(s.skip(i).skip(1) =~= s.skip(i + 1));
    }
}

pub proof fn lemma_total_split(s: Seq<usize>, i: int)
    requires
        0 <= i <= s.len(),
    ensures
        total(s) == total(s.take(i)) + total(s.skip(i)),
    decreases i,
{
    if i > 0 {
        assert(s.skip(1).take(i - 1) =~= s.take(i).skip(1));
        assert(s.skip(1).skip(i - 1) =~= s.skip(i));
        lemma_total_split(s.skip(1), i - 1);
    } else {
        assert(s.skip(0) =~= s);
        assert(s.take(0) =~= Seq::<usize>::empty());
    }
}

pub proof fn lemma_total_one(x: usize)
    ensures
        total(seq![x]) == x,
{
    assert(seq![x].skip(1) =~= Seq::<usize>::empty());
    assert(total(Seq::<usize>::empty()) == 0);
}

pub proof fn lemma_total_push(s: Seq<usize>, x: usize)
    ensures
        total(s.push(x)) == total(s) + x,
    decreases s.len(),
{
    if s.len() == 0 {
        assert(s.push(x) =~= seq![x]);
        lemma_total_one(x);
    } else {
        assert(s.push(x).skip(1) =~= s.skip(1).push(x));
        assert(s.push(x)[0] == s[0]);
        lemma_total_push(s.skip(1), x);
    }
}

pub proof fn lemma_total_take_step(s: Seq<usize>, i: int)
    requires
        0 <= i < s.len(),
    ensures
        total(s.take(i + 1)) == total(s.take(i)) + s[i],
        0 <= total(s.take(i + 1)) <= total(s),
{
    lemma_total_split(s.take(i + 1), i);
    assert(s.take(i + 1).take(i) =~= s.take(i));
    assert(s.take(i + 1).skip(i) =~= seq![s[i]]);
    lemma_total_one(s[i]);
    lemma_total_split(s, i + 1);
    lemma_total_skip(s, i + 1, i + 1);
    lemma_total_skip(s.take(i + 1), 0, 0);
    assert(s.take(i + 1).skip(0) =~= s.take(i + 1));
}

/// How many steps the step count alone forces out before one more is pushed.
pub open spec fn first_drop(len: int, limit: int) -> int {
    if len >= limit {
        len - limit + 1
    } else {
        0
    }
}

/// From `drop` on, the number of oldest steps to discard until the rest plus
/// the new step fit the budget (the new step itself always stays).
pub open spec fn evict_from(e: Seq<usize>, new: int, budget: int, drop: int) -> int
    decreases e.len() - drop,
{
    if 0 <= drop < e.len() && total(e.skip(drop)) + new > budget {
        evict_from(e, new, budget, drop + 1)
    } else {
        drop
    }
}

/// How many of the oldest steps (sizes `e`) to discard before pushing a step
/// of `new` bytes.
pub open spec fn evict_count(e: Seq<usize>, new: int, limit: int, budget: int) -> int {
    evict_from(e, new, budget, first_drop(e.len() as int, limit))
}

/// Whether the eviction arithmetic stays within `usize`.
pub open spec fn evict_fits(e: Seq<usize>, new: int, limit: int) -> bool {
    &&& limit > 0 || e.len() < usize::MAX
    &&& first_drop(e.len() as int, limit) < e.len() ==> total(e.skip(first_drop(e.len() as int, limit)))
        + new <= usize::MAX
}

pub proof fn lemma_evict_from(e: Seq<usize>, new: int, budget: int, drop: int)
    requires
        0 <= drop,
    ensures
        drop <= evict_from(e, new, budget, drop),
        drop <= e.len() ==> evict_from(e, new, budget, drop) <= e.len(),
        evict_from(e, new, budget, drop) < e.len() ==> total(
            e.skip(evict_from(e, new, budget, drop)),
        ) + new <= budget,
    decreases e.len() - drop,
{
    if 0 <= drop < e.len() && total(e.skip(drop)) + new > budget {
        lemma_evict_from(e, new, budget, drop + 1);
    }
}

/// The eviction rules: with a positive step limit, what is kept plus the new
/// step fits the limit; the count never exceeds the steps there are; what is
/// kept fits the budget unless every old step goes; and no step is dropped
/// beyond what the limit forces unless the budget asks for it.
pub proof fn lemma_evict_count_rules(e: Seq<usize>, new: int, limit: int, budget: int)
    requires
        limit > 0,
    ensures
        first_drop(e.len() as int, limit) <= evict_count(e, new, limit, budget) <= e.len(),
        e.len() - evict_count(e, new, limit, budget) + 1 <= limit,
        evict_count(e, new, limit, budget) < e.len() ==> total(
            e.skip(evict_count(e, new, limit, budget)),
        ) + new <= budget,
        evict_count(e, new, limit, budget) > first_drop(e.len() as int, limit) ==> total(
            e.skip(evict_count(e, new, limit, budget) - 1),
        ) + new > budget,
{
    let f = first_drop(e.len() as int, limit);
    lemma_evict_from(e, new, budget, f);
    lemma_evict_from_last(e, new, budget, f);
}

/// The last step that `evict_from` takes is one the budget asked for.
proof fn lemma_evict_from_last(e: Seq<usize>, new: int, budget: int, drop: int)
    requires
        0 <= drop,
    ensures
        evict_from(e, new, budget, drop) > drop ==> total(
            e.skip(evict_from(e, new, budget, drop) - 1),
        ) + new > budget,
    decreases e.len() - drop,
{
    if 0 <= drop < e.len() && total(e.skip(drop)) + new > budget {
        lemma_evict_from_last(e, new, budget, drop + 1);
    }
}

/// Before a new step of `new_bytes` is pushed: how many of the oldest steps
/// (sizes `existing`) to discard so that at most `limit` steps remain and,
/// where possible, the budget holds. The new step itself is always kept, so
/// the count never exceeds `existing.len()` when `limit` is positive.
pub fn undo_evict_count(existing: &[usize], new_bytes: usize, limit: usize, budget: usize) -> (r: usize)
    requires
        evict_fits(existing@, new_bytes as int, limit as int),
    ensures
        r == evict_count(existing@, new_bytes as int, limit as int, budget as int),
{
    let n = existing.len();
    let mut drop: usize = if n >= limit {
        n - limit + 1
    } else {
        0
    };
    let mut kept: usize = 0;
    if drop < n {
        let mut j = n;
        assert(existing@.skip(n as int) =~= Seq::<usize>::empty());
        while j > drop
            invariant
                drop <= j <= n == existing@.len(),
                kept == total(existing@.skip(j as int)),
                total(existing@.skip(drop as int)) + new_bytes <= usize::MAX,
            decreases j,
        {
            proof {
                lemma_total_skip(existing@, drop as int, j - 1);
                assert(existing@.skip(j - 1).skip(1) =~= existing@.skip(j as int));
            }
            kept = kept + existing[j - 1];
            j -= 1;
        }
    }
    while drop < n && kept + new_bytes > budget
        invariant
            n == existing@.len(),
            drop <= n ==> kept == total(existing@.skip(drop as int)),
            drop < n ==> kept + new_bytes <= usize::MAX,
            first_drop(n as int, limit as int) <= drop,
            drop > first_drop(n as int, limit as int) ==> drop <= n,
            evict_from(existing@, new_bytes as int, budget as int, drop as int) == evict_count(
                existing@,
                new_bytes as int,
                limit as int,
                budget as int,
            ),
            first_drop(n as int, limit as int) < n ==> total(existing@.skip(first_drop(n as int, limit as int))) + new_bytes <= usize::MAX,
        decreases n - drop,
    {
        proof {
            assert(existing@.skip(drop as int).skip(1) =~= existing@.skip(drop + 1));
            lemma_total_skip(existing@, first_drop(n as int, limit as int), drop + 1);
        }
        kept = kept - existing[drop];
        drop += 1;
    }
    drop
}

/// Sizes of the steps `ops`.
pub open spec fn sizes_of(ops: Seq<EditOp>) -> Seq<usize> {
    Seq::new(ops.len(), |i: int| op_size(ops[i]) as usize)
}

/// `t`, or one empty line when `t` has none.
pub open spec fn nonempty(t: Seq<Seq<char>>) -> Seq<Seq<char>> {
    if t.len() == 0 {
        seq![Seq::<char>::empty()]
    } else {
        t
    }
}

/// The undo stack: at most `limit` steps, the oldest dropped first when the
/// step count or the byte budget is exceeded, and a revision counter that
/// advances on every edit.
pub struct UndoStack {
    ops: Vec<EditOp>,
    sizes: Vec<usize>,
    limit: usize,
    bytes: usize,
    budget: usize,
    revision: u64,
}

impl UndoStack {
    /// The steps held, oldest first.
    pub closed spec fn spec_ops(&self) -> Seq<EditOp> {
        self.ops@
    }

    pub closed spec fn spec_limit(&self) -> usize {
        self.limit
    }

    pub closed spec fn spec_budget(&self) -> usize {
        self.budget
    }

    pub closed spec fn spec_bytes(&self) -> usize {
        self.bytes
    }

    pub closed spec fn spec_revision(&self) -> u64 {
        self.revision
    }

    /// The stack's bookkeeping is consistent.
    pub closed spec fn wf(&self) -> bool {
        &&& self.sizes@ == sizes_of(self.ops@)
        &&& forall|i: int| 0 <= i < self.ops@.len() ==> op_size(#[trigger] self.ops@[i]) <= usize::MAX
        &&& self.bytes == total(self.sizes@)
        &&& self.ops@.len() <= self.limit
        &&& self.bytes <= self.budget || self.ops@.len() <= 1
    }

    /// What every well-formed stack keeps, whatever sequence of `push`,
    /// `undo` and `clear` made it (each of them keeps `wf`): no more than
    /// `limit` steps, the byte count is the sum of the sizes of the steps held,
    /// and it stays within the byte budget unless a single step alone exceeds
    /// it.
    pub proof fn lemma_wf(&self)
        requires
            self.wf(),
        ensures
            self.spec_ops().len() <= self.spec_limit(),
            self.spec_bytes() == total(sizes_of(self.spec_ops())),
            self.spec_bytes() <= self.spec_budget() || self.spec_ops().len() <= 1,
    {
    }

    /// An empty stack of at most `limit` steps and the default byte budget.
    pub fn new(limit: usize) -> (r: Self)
        ensures
            r.wf(),
            r.spec_ops() == Seq::<EditOp>::empty(),
            r.spec_limit() == limit,
            r.spec_budget() == UNDO_BYTE_BUDGET,
            r.spec_bytes() == 0,
            r.spec_revision() == 0,
    {
        Self::with_budget(limit, UNDO_BYTE_BUDGET)
    }

    /// An empty stack of at most `limit` steps and `budget` bytes.
    pub fn with_budget(limit: usize, budget: usize) -> (r: Self)
        ensures
            r.wf(),
            r.spec_ops() == Seq::<EditOp>::empty(),
            r.spec_limit() == limit,
            r.spec_budget() == budget,
            r.spec_bytes() == 0,
            r.spec_revision() == 0,
    {
        let r = UndoStack { ops: Vec::new(), sizes: Vec::new(), limit, bytes: 0, budget, revision: 0 };
        assert(r.sizes@ =~= sizes_of(r.ops@));
        r
    }

    /// The number of edits so far; only whether it changed matters.
    pub fn revision(&self) -> (r: u64)
        ensures
            r == self.spec_revision(),
    {
        self.revision
    }

    pub fn len(&self) -> (r: usize)
        ensures
            r == self.spec_ops().len(),
    {
        self.ops.len()
    }

    pub fn is_empty(&self) -> (r: bool)
        ensures
            r == (self.spec_ops().len() == 0),
    {
        self.ops.len() == 0
    }

    /// The rough number of bytes held.
    pub fn bytes(&self) -> (r: usize)
        ensures
            r == self.spec_bytes(),
    {
        self.bytes
    }

    /// Records one step, before the edit is applied. The revision advances even
    /// when `limit` is 0 and nothing is kept.
    pub fn push(&mut self, op: EditOp)
        requires
            old(self).wf(),
            op_size(op) <= usize::MAX,
            old(self).spec_revision() < u64::MAX,
            old(self).spec_limit() > 0 ==> evict_fits(
                sizes_of(old(self).spec_ops()),
                op_size(op),
                old(self).spec_limit() as int,
            ),
        ensures
            final(self).wf(),
            final(self).spec_revision() == old(self).spec_revision() + 1,
            final(self).spec_limit() == old(self).spec_limit(),
            final(self).spec_budget() == old(self).spec_budget(),
            old(self).spec_limit() == 0 ==> final(self).spec_ops() == old(self).spec_ops(),
            old(self).spec_limit() > 0 ==> final(self).spec_ops() == old(self).spec_ops().skip(
                evict_count(
                    sizes_of(old(self).spec_ops()),
                    op_size(op),
                    old(self).spec_limit() as int,
                    old(self).spec_budget() as int,
                ),
            ).push(op),
    {
        self.revision = self.revision + 1;
        if self.limit == 0 {
            return;
        }
        let new_bytes = op_bytes(&op);
        let drop = undo_evict_count(&self.sizes, new_bytes, self.limit, self.budget);
        let ghost e = self.sizes@;
        proof {
            lemma_evict_from(e, new_bytes as int, self.budget as int, first_drop(e.len() as int, self.limit as int));
            lemma_evict_count_rules(e, new_bytes as int, self.limit as int, self.budget as int);
        }
        if drop > 0 {
            let mut gone: usize = 0;
            let mut i: usize = 0;
            while i < drop
                invariant
                    i <= drop <= e.len(),
                    e == self.sizes@,
                    gone == total(e.take(i as int)),
                    total(e) == self.bytes,
                decreases drop - i,
            {
                proof {
                    lemma_total_take_step(e, i as int);
                }
                gone = gone + self.sizes[i];
                i += 1;
            }
            proof {
                lemma_total_split(e, drop as int);
                lemma_total_skip(e, drop as int, drop as int);
            }
            self.bytes = self.bytes - gone;
            self.ops = self.ops.split_off(drop);
            self.sizes = self.sizes.split_off(drop);
        }
        let ghost kept_sizes = self.sizes@;
        assert(kept_sizes =~= e.skip(drop as int));
        assert(self.bytes == total(e.skip(drop as int))) by {
            if drop == 0 {
                assert(e.skip(0) =~= e);
            }
        }
        self.bytes = self.bytes + new_bytes;
        self.ops.push(op);
        self.sizes.push(new_bytes);
        proof {
            lemma_total_push(kept_sizes, new_bytes);
            assert(self.sizes@ =~= sizes_of(self.ops@));
        }
    }

    /// Drops every step; the revision stays.
    pub fn clear(&mut self)
        requires
            old(self).wf(),
        ensures
            final(self).wf(),
            final(self).spec_ops() == Seq::<EditOp>::empty(),
            final(self).spec_bytes() == 0,
            final(self).spec_revision() == old(self).spec_revision(),
            final(self).spec_limit() == old(self).spec_limit(),
            final(self).spec_budget() == old(self).spec_budget(),
    {
        self.ops.clear();
        self.sizes.clear();
        self.bytes = 0;
        assert(self.sizes@ =~= sizes_of(self.ops@));
    }

    /// Undoes the most recent step on `lines`; false when there is none. A
    /// document never ends up with no line.
    pub fn undo(&mut self, lines: &mut Vec<String>) -> (r: bool)
        requires
            old(self).wf(),
            old(self).spec_ops().len() > 0 ==> op_fits(old(self).spec_ops().last())
                && old(self).spec_revision() < u64::MAX,
        ensures
            final(self).wf(),
            final(self).spec_limit() == old(self).spec_limit(),
            final(self).spec_budget() == old(self).spec_budget(),
            old(self).spec_ops().len() == 0 ==> !r && final(self).spec_ops() == old(self).spec_ops()
                && final(self).spec_revision() == old(self).spec_revision()
                && final(self).spec_bytes() == old(self).spec_bytes() && final(lines)@ == old(lines)@,
            old(self).spec_ops().len() > 0 ==> r && final(self).spec_ops() == old(self).spec_ops().drop_last()
                && final(self).spec_revision() == old(self).spec_revision() + 1 && texts(final(lines)@)
                == nonempty(apply_op(texts(old(lines)@), old(self).spec_ops().last())),
    {
        if self.ops.len() == 0 {
            return false;
        }
        let ghost e = self.sizes@;
        let op = self.ops.pop().unwrap();
        self.revision = self.revision + 1;
        let b = self.sizes.pop().unwrap();
        proof {
            lemma_total_split(e, e.len() - 1);
            assert(e.skip(e.len() - 1) =~= seq![b]);
            lemma_total_one(b);
            lemma_total_skip(e.take(e.len() - 1), 0, 0);
            assert(e.take(e.len() - 1).skip(0) =~= e.take(e.len() - 1));
            assert(e.take(e.len() - 1) =~= self.sizes@);
        }
        self.bytes = self.bytes - b;
        apply_undo_op(lines, &op);
        if lines.len() == 0 {
            lines.push(String::new());
            assert(texts(lines@) =~= seq![Seq::<char>::empty()]);
        }
        assert(self.sizes@ =~= sizes_of(self.ops@));
        true
    }
}

} // verus!
