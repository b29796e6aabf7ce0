//! The list as mathematics: a finite map from keys to tasks whose rows
//! number the tasks from 0 without gap or repeat.

use vstd::prelude::*;
use slotmap::DefaultKey;
use crate::widgets::Task;

verus! {

/// Some task of `m` stands at row `r`.
pub open spec fn has_row(m: Map<DefaultKey, Task>, r: int) -> bool {
    exists|k: DefaultKey| m.dom().contains(k) && #[trigger] m[k].row == r
}

/// The rows of `m` are `0..n` for its `n` tasks, each row taken once.
pub open spec fn contiguous(m: Map<DefaultKey, Task>) -> bool {
    &&& m.dom().finite()
    &&& forall|k: DefaultKey| #[trigger] m.dom().contains(k) ==> 0 <= m[k].row < m.dom().len()
    &&& forall|a: DefaultKey, b: DefaultKey|
        #![trigger m[a], m[b]]
        m.dom().contains(a) && m.dom().contains(b) && m[a].row == m[b].row ==> a == b
    &&& forall|r: int| 0 <= r < m.dom().len() ==> #[trigger] has_row(m, r)
}

/// The key of the task at row `r`.
pub open spec fn key_at(m: Map<DefaultKey, Task>, r: int) -> DefaultKey {
    choose|k: DefaultKey| m.dom().contains(k) && #[trigger] m[k].row == r
}

/// The texts of the tasks, in row order.
pub open spec fn texts(m: Map<DefaultKey, Task>) -> Seq<Seq<char>> {
    Seq::new(m.dom().len(), |r: int| m[key_at(m, r)].text@)
}

/// Every task of `m` is connected under its own key.
pub open spec fn connected(m: Map<DefaultKey, Task>) -> bool {
    forall|k: DefaultKey| #[trigger] m.dom().contains(k) ==> m[k].entity == Some(k)
}

/// What a task becomes when a row opens at `row`: it moves down by one if it
/// stood at `row` or below it.
pub open spec fn pushed_down(t: Task, row: int) -> Task {
    Task { row: if t.row >= row { (t.row + 1) as i32 } else { t.row }, ..t }
}

/// What a task becomes when the row `row` closes: it moves up by one if it
/// stood below `row`.
pub open spec fn pulled_up(t: Task, row: int) -> Task {
    Task { row: if t.row > row { (t.row - 1) as i32 } else { t.row }, ..t }
}

/// In a contiguous list the task at the row of a live key is that key's.
pub proof fn lemma_key_at_row(m: Map<DefaultKey, Task>, k: DefaultKey)
    requires
        contiguous(m),
        m.dom().contains(k),
    ensures
        key_at(m, m[k].row as int) == k,
        0 <= m[k].row < m.dom().len(),
{
    let r = m[k].row as int;
    assert(has_row(m, r));
    let c = key_at(m, r);
    assert(m.dom().contains(c) && m[c].row == r);
}

/// In a contiguous list each row below the length has a live task, at that row.
pub proof fn lemma_row_key(m: Map<DefaultKey, Task>, r: int)
    requires
        contiguous(m),
        0 <= r < m.dom().len(),
    ensures
        m.dom().contains(key_at(m, r)),
        m[key_at(m, r)].row == r,
{
    assert(has_row(m, r));
}

/// Replacing the text of a live task keeps the list contiguous and changes
/// the texts at that task's row only.
pub proof fn lemma_retext(m: Map<DefaultKey, Task>, e: DefaultKey, t: Task)
    requires
        contiguous(m),
        m.dom().contains(e),
        t.row == m[e].row,
    ensures
        contiguous(m.insert(e, t)),
        m.insert(e, t).dom() == m.dom(),
        0 <= t.row < m.dom().len(),
        texts(m.insert(e, t)) == texts(m).update(t.row as int, t.text@),
{
    let n = m.insert(e, t);
    let len = m.dom().len() as int;
    lemma_key_at_row(m, e);
    assert(n.dom() =~= m.dom());
    assert forall|r: int| 0 <= r < len implies #[trigger] has_row(n, r) by {
        lemma_row_key(m, r);
        let w = key_at(m, r);
        assert(n.dom().contains(w) && n[w].row == r);
    }
    assert(contiguous(n));
    let want = texts(m).update(t.row as int, t.text@);
    assert forall|r: int| 0 <= r < len implies texts(n)[r] == want[r] by {
        lemma_row_key(m, r);
        let w = key_at(m, r);
        assert(n.dom().contains(w) && n[w].row == r);
        lemma_key_at_row(n, w);
    }
    assert(texts(n) =~= want);
}

/// The rows of a contiguous list are exactly the numbers below its length,
/// and no two tasks share one.
pub proof fn lemma_rows_are_exact(m: Map<DefaultKey, Task>)
    requires
        contiguous(m),
    ensures
        forall|r: int| has_row(m, r) <==> 0 <= r < m.dom().len(),
        forall|a: DefaultKey, b: DefaultKey|
            m.dom().contains(a) && m.dom().contains(b) && a != b ==> m[a].row != m[b].row,
{
    assert forall|r: int| has_row(m, r) implies 0 <= r < m.dom().len() by {
        let k = choose|k: DefaultKey| m.dom().contains(k) && #[trigger] m[k].row == r;
        assert(m.dom().contains(k));
    }
}

/// The list after the task `e` has left it: the tasks below its row have
/// moved up by one. A key that is not live leaves the list as it is.
pub open spec fn without(m: Map<DefaultKey, Task>, e: DefaultKey) -> Map<DefaultKey, Task> {
    if m.dom().contains(e) {
        Map::new(
            |k: DefaultKey| m.dom().contains(k) && k != e,
            |k: DefaultKey| pulled_up(m[k], m[e].row as int),
        )
    } else {
        m
    }
}

/// The list after a row has opened at `row` for the task `t` under the key
/// `e`: the tasks at `row` and below have moved down by one.
pub open spec fn with_row(m: Map<DefaultKey, Task>, e: DefaultKey, t: Task) -> Map<DefaultKey, Task> {
    Map::new(
        |k: DefaultKey| m.dom().contains(k) || k == e,
        |k: DefaultKey| if k == e { t } else { pushed_down(m[k], t.row as int) },
    )
}

/// Removing a task a second time changes nothing: its key is no longer live
/// after the first removal.
pub proof fn lemma_remove_twice(m: Map<DefaultKey, Task>, e: DefaultKey)
    ensures
        !without(m, e).dom().contains(e),
        without(without(m, e), e) == without(m, e),
{
}

/// Removing the task that was just inserted gives the list back as it was.
pub proof fn lemma_insert_then_remove(m: Map<DefaultKey, Task>, e: DefaultKey, t: Task)
    requires
        contiguous(m),
        !m.dom().contains(e),
        0 <= t.row <= m.dom().len() < i32::MAX,
    ensures
        without(with_row(m, e, t), e) == m,
{
    let n = without(with_row(m, e, t), e);
    assert(n.dom() =~= m.dom());
    assert forall|k: DefaultKey| m.dom().contains(k) implies n[k] == m[k] by {
        assert(with_row(m, e, t)[k] == pushed_down(m[k], t.row as int));
        assert(with_row(m, e, t)[e] == t);
    }
    assert(n =~= m);
}

/// Opening a row keeps the list contiguous and puts an empty line into the
/// texts at that row.
pub proof fn lemma_open_row(m: Map<DefaultKey, Task>, n: Map<DefaultKey, Task>, e: DefaultKey, row: int)
    requires
        contiguous(m),
        0 <= row <= m.dom().len() < i32::MAX,
        !m.dom().contains(e),
        n.dom() == m.dom().insert(e),
        n[e].row == row,
        forall|k: DefaultKey| m.dom().contains(k) ==> #[trigger] n[k] == pushed_down(m[k], row),
    ensures
        contiguous(n),
        n.dom().len() == m.dom().len() + 1,
        texts(n) == texts(m).insert(row, n[e].text@),
{
    let len = m.dom().len() as int;
    assert(n.dom().len() == len + 1);
    assert forall|r: int| 0 <= r < len + 1 implies #[trigger] has_row(n, r) by {
        if r < row {
            lemma_row_key(m, r);
            let w = key_at(m, r);
            assert(n[w] == pushed_down(m[w], row));
            assert(n.dom().contains(w) && n[w].row == r);
        } else if r == row {
            assert(n.dom().contains(e) && n[e].row == r);
        } else {
            lemma_row_key(m, r - 1);
            let w = key_at(m, r - 1);
            assert(n[w] == pushed_down(m[w], row));
            assert(n.dom().contains(w) && n[w].row == r);
        }
    }
    assert forall|a: DefaultKey, b: DefaultKey|
        #![trigger n[a], n[b]]
        n.dom().contains(a) && n.dom().contains(b) && n[a].row == n[b].row implies a == b by {
        if a != e {
            assert(n[a] == pushed_down(m[a], row));
        }
        if b != e {
            assert(n[b] == pushed_down(m[b], row));
        }
    }
    assert forall|k: DefaultKey| #[trigger] n.dom().contains(k) implies 0 <= n[k].row < n.dom().len() by {
        if k != e {
            assert(n[k] == pushed_down(m[k], row));
        }
    }
    assert(contiguous(n));
    let want = texts(m).insert(row, n[e].text@);
    assert forall|r: int| 0 <= r < len + 1 implies texts(n)[r] == want[r] by {
        if r < row {
            lemma_row_key(m, r);
            let w = key_at(m, r);
            assert(n[w] == pushed_down(m[w], row));
            lemma_key_at_row(n, w);
        } else if r == row {
            lemma_key_at_row(n, e);
        } else {
            lemma_row_key(m, r - 1);
            let w = key_at(m, r - 1);
            assert(n[w] == pushed_down(m[w], row));
            lemma_key_at_row(n, w);
        }
    }
    assert(texts(n) =~= want);
}

/// Closing the row of a live task keeps the list contiguous and takes that
/// row's line out of the texts.
pub proof fn lemma_close_row(m: Map<DefaultKey, Task>, n: Map<DefaultKey, Task>, e: DefaultKey)
    requires
        contiguous(m),
        m.dom().contains(e),
        n.dom() == m.dom().remove(e),
        forall|k: DefaultKey| n.dom().contains(k) ==> #[trigger] n[k] == pulled_up(m[k], m[e].row as int),
    ensures
        contiguous(n),
        n.dom().len() == m.dom().len() - 1,
        0 <= m[e].row < m.dom().len(),
        texts(n) == texts(m).remove(m[e].row as int),
{
    let len = m.dom().len() as int;
    let row = m[e].row as int;
    lemma_key_at_row(m, e);
    assert(n.dom().len() == len - 1);
    assert forall|r: int| 0 <= r < len - 1 implies #[trigger] has_row(n, r) by {
        let s = if r < row { r } else { r + 1 };
        lemma_row_key(m, s);
        let w = key_at(m, s);
        assert(w != e);
        assert(n.dom().contains(w));
        assert(n[w] == pulled_up(m[w], row));
        assert(n[w].row == r);
    }
    assert forall|a: DefaultKey, b: DefaultKey|
        #![trigger n[a], n[b]]
        n.dom().contains(a) && n.dom().contains(b) && n[a].row == n[b].row implies a == b by {
        assert(n[a] == pulled_up(m[a], row));
        assert(n[b] == pulled_up(m[b], row));
        assert(m.dom().contains(a) && m.dom().contains(b));
        assert(m[a].row != row && m[b].row != row);
    }
    assert forall|k: DefaultKey| #[trigger] n.dom().contains(k) implies 0 <= n[k].row < n.dom().len() by {
        assert(n[k] == pulled_up(m[k], row));
        assert(m.dom().contains(k));
        assert(m[k].row != row);
    }
    assert(contiguous(n));
    let want = texts(m).remove(row);
    assert forall|r: int| 0 <= r < len - 1 implies texts(n)[r] == want[r] by {
        let s = if r < row { r } else { r + 1 };
        lemma_row_key(m, s);
        let w = key_at(m, s);
        assert(n.dom().contains(w));
        assert(n[w] == pulled_up(m[w], row));
        lemma_key_at_row(n, w);
    }
    assert(texts(n) =~= want);
}

} // verus!
