//! Line diffs: a condensed side-by-side comparison of two texts, and a
//! condensed summary of unified diff output.

use vstd::prelude::*;
use crate::utils::{
    append_chars, append_str, chars_of, contains_char, decimal, first_n, has_prefix, join,
    join_chars, lines, lines_of, push_decimal, slice_chars, starts_with_str, string_from_chars,
    truncate_chars, truncate_spec, views,
};

verus! {

// ---------------------------------------------------------------------------
// Character-set overlap
// ---------------------------------------------------------------------------

/// Adds to `acc` the characters of `s` it does not hold yet.
fn add_distinct(acc: &mut Vec<char>, s: &[char])
    requires
        old(acc)@.no_duplicates(),
    ensures
        final(acc)@.no_duplicates(),
        final(acc)@.to_set() == old(acc)@.to_set().union(s@.to_set()),
{
    let mut i: usize = 0;
    while i < s.len()
        invariant
            0 <= i <= s@.len(),
            acc@.no_duplicates(),
            acc@.to_set() == old(acc)@.to_set().union(s@.take(i as int).to_set()),
        decreases s@.len() - i,
    {
        let c = s[i];
        let ghost before = acc@;
        proof {
            assert(s@.take(i + 1) =~= s@.take(i as int).push(c));
            s@.take(i as int).lemma_push_to_set_commute(c);
        }
        if !contains_char(acc.as_slice(), c) {
            acc.push(c);
            proof {
                before.lemma_push_to_set_commute(c);
                assert forall|x: int, y: int|
                    0 <= x < acc@.len() && 0 <= y < acc@.len() && x != y implies acc@[x]
                    != acc@[y] by {
                    if x == before.len() as int {
                        assert(!before.contains(c));
                        assert(before[y] == acc@[y]);
                    } else if y == before.len() as int {
                        assert(!before.contains(c));
                        assert(before[x] == acc@[x]);
                    } else {
                        assert(before[x] == acc@[x] && before[y] == acc@[y]);
                    }
                }
            }
        }
        proof {
            assert(acc@.to_set() =~= old(acc)@.to_set().union(s@.take(i + 1).to_set()));
        }
        i = i + 1;
    }
    proof {
        assert(s@.take(s@.len() as int) =~= s@);
    }
}

/// The characters of `src` that also occur in `other`.
fn keep_members(src: &[char], other: &[char]) -> (r: Vec<char>)
    requires
        src@.no_duplicates(),
    ensures
        r@.no_duplicates(),
        r@.to_set() == src@.to_set().intersect(other@.to_set()),
{
    let mut r: Vec<char> = Vec::new();
    let mut i: usize = 0;
    while i < src.len()
        invariant
            src@.no_duplicates(),
            0 <= i <= src@.len(),
            r@.no_duplicates(),
            r@.to_set() == src@.take(i as int).to_set().intersect(other@.to_set()),
            forall|k: int| 0 <= k < r@.len() ==> src@.take(i as int).contains(#[trigger] r@[k]),
        decreases src@.len() - i,
    {
        let c = src[i];
        let ghost before = r@;
        proof {
            assert(src@.take(i + 1) =~= src@.take(i as int).push(c));
            src@.take(i as int).lemma_push_to_set_commute(c);
            assert(!src@.take(i as int).contains(c)) by {
                if src@.take(i as int).contains(c) {
                    let k = choose|k: int| 0 <= k < i && src@.take(i as int)[k] == c;
                    assert(src@[k] == src@[i as int]);
                }
            }
        }
        if contains_char(other, c) {
            r.push(c);
            proof {
                before.lemma_push_to_set_commute(c);
                assert(!before.contains(c)) by {
                    if before.contains(c) {
                        let k = choose|k: int| 0 <= k < before.len() && before[k] == c;
                        assert(src@.take(i as int).contains(before[k]));
                    }
                }
                assert forall|x: int, y: int|
                    0 <= x < r@.len() && 0 <= y < r@.len() && x != y implies r@[x] != r@[y] by {
                    if x == before.len() as int {
                        assert(before[y] == r@[y]);
                    } else if y == before.len() as int {
                        assert(before[x] == r@[x]);
                    } else {
                        assert(before[x] == r@[x] && before[y] == r@[y]);
                    }
                }
            }
        }
        proof {
            assert(r@.to_set() =~= src@.take(i + 1).to_set().intersect(other@.to_set()));
            assert forall|k: int| 0 <= k < r@.len() implies src@.take(i + 1).contains(
                #[trigger] r@[k],
            ) by {
                if k < before.len() {
                    assert(src@.take(i as int).contains(before[k]));
                    let m = choose|m: int| 0 <= m < i && src@.take(i as int)[m] == before[k];
                    assert(src@.take(i + 1)[m] == before[k]);
                } else {
                    assert(src@.take(i + 1)[i as int] == c);
                }
            }
        }
        i = i + 1;
    }
    proof {
        assert(src@.take(src@.len() as int) =~= src@);
    }
    r
}

/// The sizes of the intersection and of the union of the character sets of
/// `a` and `b`.
pub fn char_overlap(a: &str, b: &str) -> (r: (usize, usize))
    ensures
        r.0 == a@.to_set().intersect(b@.to_set()).len(),
        r.1 == a@.to_set().union(b@.to_set()).len(),
        r.0 <= r.1,
{
    let ac = chars_of(a);
    let bc = chars_of(b);
    let mut da: Vec<char> = Vec::new();
    proof {
        assert(da@.to_set() =~= Set::<char>::empty());
    }
    add_distinct(&mut da, ac.as_slice());
    let mut du = da.clone();
    proof {
        assert(du@ =~= da@);
    }
    add_distinct(&mut du, bc.as_slice());
    let di = keep_members(da.as_slice(), bc.as_slice());
    proof {
        assert(da@.to_set() =~= a@.to_set());
        assert(du@.to_set() =~= a@.to_set().union(b@.to_set()));
        di@.unique_seq_to_set();
        du@.unique_seq_to_set();
        vstd::set_lib::lemma_len_subset(di@.to_set(), du@.to_set());
    }
    (di.len(), du.len())
}

/// Whether two differing lines count as a modification rather than a removal
/// and an addition: their character sets overlap by more than half of their
/// union (the Jaccard index exceeds 0.5; two empty sets count as alike).
pub open spec fn similar(a: Seq<char>, b: Seq<char>) -> bool {
    let inter = a.to_set().intersect(b.to_set()).len();
    let uni = a.to_set().union(b.to_set()).len();
    uni == 0 || 2 * inter > uni
}

/// Whether two lines count as a modification of each other.
pub fn is_similar(a: &str, b: &str) -> (r: bool)
    ensures
        r == similar(a@, b@),
{
    let (inter, uni) = char_overlap(a, b);
    uni == 0 || inter > uni - inter
}

// ---------------------------------------------------------------------------
// Line-by-line comparison
// ---------------------------------------------------------------------------

/// One changed line, by 1-based line number.
#[derive(Debug)]
pub enum DiffChange {
    Added(usize, String),
    Removed(usize, String),
    Modified(usize, String, String),
}

/// The changes between two texts, with their counts.
pub struct DiffResult {
    pub added: usize,
    pub removed: usize,
    pub modified: usize,
    pub changes: Vec<DiffChange>,
}

/// The mathematical form of a change.
pub enum ChangeView {
    Added(nat, Seq<char>),
    Removed(nat, Seq<char>),
    Modified(nat, Seq<char>, Seq<char>),
}

/// The view of a change.
pub open spec fn change_view(c: DiffChange) -> ChangeView {
    match c {
        DiffChange::Added(n, s) => ChangeView::Added(n as nat, s@),
        DiffChange::Removed(n, s) => ChangeView::Removed(n as nat, s@),
        DiffChange::Modified(n, a, b) => ChangeView::Modified(n as nat, a@, b@),
    }
}

/// The views of a list of changes.
pub open spec fn changes_view(v: Seq<DiffChange>) -> Seq<ChangeView> {
    v.map_values(|c: DiffChange| change_view(c))
}

/// The views of a list of string slices.
pub open spec fn str_views(v: Seq<&str>) -> Seq<Seq<char>> {
    v.map_values(|s: &str| s@)
}

/// The changes at line index `i`: a differing pair is a modification when the
/// lines are similar, else a removal then an addition; a line present on one
/// side only is removed or added; equal lines give nothing.
pub open spec fn change_at(l1: Seq<Seq<char>>, l2: Seq<Seq<char>>, i: int) -> Seq<ChangeView> {
    let n = (i + 1) as nat;
    if i < l1.len() && i < l2.len() {
        if l1[i] != l2[i] {
            if similar(l1[i], l2[i]) {
                seq![ChangeView::Modified(n, l1[i], l2[i])]
            } else {
                seq![ChangeView::Removed(n, l1[i]), ChangeView::Added(n, l2[i])]
            }
        } else {
            Seq::<ChangeView>::empty()
        }
    } else if i < l1.len() {
        seq![ChangeView::Removed(n, l1[i])]
    } else if i < l2.len() {
        seq![ChangeView::Added(n, l2[i])]
    } else {
        Seq::<ChangeView>::empty()
    }
}

/// The changes at the first `k` line indices, in order.
pub open spec fn changes_upto(l1: Seq<Seq<char>>, l2: Seq<Seq<char>>, k: nat) -> Seq<ChangeView>
    decreases k,
{
    if k == 0 {
        Seq::<ChangeView>::empty()
    } else {
        changes_upto(l1, l2, (k - 1) as nat) + change_at(l1, l2, k - 1)
    }
}

/// The changes between two lists of lines, compared index by index.
pub open spec fn diff_changes(l1: Seq<Seq<char>>, l2: Seq<Seq<char>>) -> Seq<ChangeView> {
    changes_upto(l1, l2, if l1.len() >= l2.len() { l1.len() } else { l2.len() })
}

/// How many changes are additions.
pub open spec fn count_added(cs: Seq<ChangeView>) -> nat
    decreases cs.len(),
{
    if cs.len() == 0 {
        0
    } else {
        count_added(cs.drop_last()) + if cs.last() is Added {
            1nat
        } else {
            0nat
        }
    }
}

/// How many changes are removals.
pub open spec fn count_removed(cs: Seq<ChangeView>) -> nat
    decreases cs.len(),
{
    if cs.len() == 0 {
        0
    } else {
        count_removed(cs.drop_last()) + if cs.last() is Removed {
            1nat
        } else {
            0nat
        }
    }
}

/// How many changes are modifications.
pub open spec fn count_modified(cs: Seq<ChangeView>) -> nat
    decreases cs.len(),
{
    if cs.len() == 0 {
        0
    } else {
        count_modified(cs.drop_last()) + if cs.last() is Modified {
            1nat
        } else {
            0nat
        }
    }
}

proof fn lemma_counts_push(cs: Seq<ChangeView>, c: ChangeView)
    ensures
        count_added(cs.push(c)) == count_added(cs) + if c is Added {
            1nat
        } else {
            0nat
        },
        count_removed(cs.push(c)) == count_removed(cs) + if c is Removed {
            1nat
        } else {
            0nat
        },
        count_modified(cs.push(c)) == count_modified(cs) + if c is Modified {
            1nat
        } else {
            0nat
        },
{
    assert(cs.push(c).drop_last() =~= cs);
}

/// Appends one change, keeping the counts.
fn push_change(
    changes: &mut Vec<DiffChange>,
    added: &mut usize,
    removed: &mut usize,
    modified: &mut usize,
    c: DiffChange,
)
    requires
        *old(added) == count_added(changes_view(old(changes)@)),
        *old(removed) == count_removed(changes_view(old(changes)@)),
        *old(modified) == count_modified(changes_view(old(changes)@)),
        change_view(c) is Added ==> *old(added) < usize::MAX,
        change_view(c) is Removed ==> *old(removed) < usize::MAX,
        change_view(c) is Modified ==> *old(modified) < usize::MAX,
    ensures
        *final(added) == *old(added) + if change_view(c) is Added {
            1int
        } else {
            0int
        },
        *final(removed) == *old(removed) + if change_view(c) is Removed {
            1int
        } else {
            0int
        },
        *final(modified) == *old(modified) + if change_view(c) is Modified {
            1int
        } else {
            0int
        },
        changes_view(final(changes)@) == changes_view(old(changes)@).push(change_view(c)),
        *final(added) == count_added(changes_view(final(changes)@)),
        *final(removed) == count_removed(changes_view(final(changes)@)),
        *final(modified) == count_modified(changes_view(final(changes)@)),
{
    let ghost cv = changes_view(changes@);
    proof {
        lemma_counts_push(cv, change_view(c));
    }
    match &c {
        DiffChange::Added(_, _) => {
            *added = *added + 1;
        },
        DiffChange::Removed(_, _) => {
            *removed = *removed + 1;
        },
        DiffChange::Modified(_, _, _) => {
            *modified = *modified + 1;
        },
    }
    changes.push(c);
    proof {
        assert(changes_view(changes@) =~= cv.push(change_view(c)));
    }
}

/// Whether two character sequences are equal.
fn chars_eq(a: &[char], b: &[char]) -> (r: bool)
    ensures
        r == (a@ == b@),
{
    if a.len() != b.len() {
        return false;
    }
    let mut i: usize = 0;
    while i < a.len()
        invariant
            a@.len() == b@.len(),
            0 <= i <= a@.len(),
            forall|j: int| 0 <= j < i ==> a@[j] == b@[j],
        decreases a@.len() - i,
    {
        if a[i] != b[i] {
            return false;
        }
        i = i + 1;
    }
    assert(a@ =~= b@);
    true
}

/// Compares two texts line by line at equal indices (no alignment): changed
/// lines, added and removed trailing lines, and how many of each.
pub fn compute_diff(lines1: &[&str], lines2: &[&str]) -> (r: DiffResult)
    ensures
        changes_view(r.changes@) == diff_changes(str_views(lines1@), str_views(lines2@)),
        r.added == count_added(changes_view(r.changes@)),
        r.removed == count_removed(changes_view(r.changes@)),
        r.modified == count_modified(changes_view(r.changes@)),
{
    let ghost l1 = str_views(lines1@);
    let ghost l2 = str_views(lines2@);
    let mut changes: Vec<DiffChange> = Vec::new();
    let mut added: usize = 0;
    let mut removed: usize = 0;
    let mut modified: usize = 0;
    let max_len = if lines1.len() >= lines2.len() {
        lines1.len()
    } else {
        lines2.len()
    };
    let mut i: usize = 0;
    while i < max_len
        invariant
            l1 == str_views(lines1@),
            l2 == str_views(lines2@),
            max_len == if l1.len() >= l2.len() { l1.len() } else { l2.len() },
            0 <= i <= max_len,
            changes_view(changes@) == changes_upto(l1, l2, i as nat),
            added <= i && removed <= i && modified <= i,
            added == count_added(changes_view(changes@)),
            removed == count_removed(changes_view(changes@)),
            modified == count_modified(changes_view(changes@)),
        decreases max_len - i,
    {
        let ghost before = changes_view(changes@);
        let n = i + 1;
        if i < lines1.len() && i < lines2.len() {
            let a = lines1[i];
            let b = lines2[i];
            let ac = chars_of(a);
            let bc = chars_of(b);
            assert(l1[i as int] == a@ && l2[i as int] == b@);
            if !chars_eq(ac.as_slice(), bc.as_slice()) {
                if is_similar(a, b) {
                    push_change(
                        &mut changes,
                        &mut added,
                        &mut removed,
                        &mut modified,
                        DiffChange::Modified(n, string_from_chars(ac.as_slice()), string_from_chars(bc.as_slice())),
                    );
                    assert(changes_view(changes@) =~= before + change_at(l1, l2, i as int));
                } else {
                    push_change(
                        &mut changes,
                        &mut added,
                        &mut removed,
                        &mut modified,
                        DiffChange::Removed(n, string_from_chars(ac.as_slice())),
                    );
                    push_change(
                        &mut changes,
                        &mut added,
                        &mut removed,
                        &mut modified,
                        DiffChange::Added(n, string_from_chars(bc.as_slice())),
                    );
                    assert(changes_view(changes@) =~= before + change_at(l1, l2, i as int));
                }
            } else {
                assert(changes_view(changes@) =~= before + change_at(l1, l2, i as int));
            }
        } else if i < lines1.len() {
            let a = lines1[i];
            assert(l1[i as int] == a@);
            push_change(
                &mut changes,
                &mut added,
                &mut removed,
                &mut modified,
                DiffChange::Removed(n, string_from_chars(chars_of(a).as_slice())),
            );
            assert(changes_view(changes@) =~= before + change_at(l1, l2, i as int));
        } else {
            let b = lines2[i];
            assert(l2[i as int] == b@);
            push_change(
                &mut changes,
                &mut added,
                &mut removed,
                &mut modified,
                DiffChange::Added(n, string_from_chars(chars_of(b).as_slice())),
            );
            assert(changes_view(changes@) =~= before + change_at(l1, l2, i as int));
        }
        i = i + 1;
    }
    DiffResult { added, removed, modified, changes }
}

// ---------------------------------------------------------------------------
// Laws of the comparison
// ---------------------------------------------------------------------------

proof fn lemma_counts_concat(a: Seq<ChangeView>, b: Seq<ChangeView>)
    ensures
        count_added(a + b) == count_added(a) + count_added(b),
        count_removed(a + b) == count_removed(a) + count_removed(b),
        count_modified(a + b) == count_modified(a) + count_modified(b),
    decreases b.len(),
{
    if b.len() > 0 {
        lemma_counts_concat(a, b.drop_last());
        assert((a + b).drop_last() =~= a + b.drop_last());
        assert((a + b).last() == b.last());
    } else {
        assert(a + b =~= a);
    }
}

/// The number of changes is the number of additions, removals and
/// modifications together.
pub proof fn lemma_change_counts_sum(cs: Seq<ChangeView>)
    ensures
        count_added(cs) + count_removed(cs) + count_modified(cs) == cs.len(),
    decreases cs.len(),
{
    if cs.len() > 0 {
        lemma_change_counts_sum(cs.drop_last());
    }
}

proof fn lemma_balance_upto(l1: Seq<Seq<char>>, l2: Seq<Seq<char>>, k: nat)
    ensures
        count_added(changes_upto(l1, l2, k)) - count_removed(changes_upto(l1, l2, k)) == (if k
            <= l2.len() {
            k as int
        } else {
            l2.len() as int
        }) - (if k <= l1.len() {
            k as int
        } else {
            l1.len() as int
        }),
    decreases k,
{
    if k > 0 {
        let i = k - 1;
        lemma_balance_upto(l1, l2, (k - 1) as nat);
        lemma_counts_concat(changes_upto(l1, l2, (k - 1) as nat), change_at(l1, l2, i));
        let c = change_at(l1, l2, i);
        let n = (i + 1) as nat;
        if i < l1.len() && i < l2.len() {
            if l1[i] != l2[i] {
                if similar(l1[i], l2[i]) {
                    lemma_counts_push(Seq::<ChangeView>::empty(), ChangeView::Modified(n, l1[i], l2[i]));
                    assert(c =~= Seq::<ChangeView>::empty().push(ChangeView::Modified(n, l1[i], l2[i])));
                } else {
                    let r = ChangeView::Removed(n, l1[i]);
                    let a = ChangeView::Added(n, l2[i]);
                    lemma_counts_push(Seq::<ChangeView>::empty(), r);
                    lemma_counts_push(Seq::<ChangeView>::empty().push(r), a);
                    assert(c =~= Seq::<ChangeView>::empty().push(r).push(a));
                }
            }
        } else if i < l1.len() {
            lemma_counts_push(Seq::<ChangeView>::empty(), ChangeView::Removed(n, l1[i]));
            assert(c =~= Seq::<ChangeView>::empty().push(ChangeView::Removed(n, l1[i])));
        } else if i < l2.len() {
            lemma_counts_push(Seq::<ChangeView>::empty(), ChangeView::Added(n, l2[i]));
            assert(c =~= Seq::<ChangeView>::empty().push(ChangeView::Added(n, l2[i])));
        }
    }
}

/// Additions minus removals is the change in the number of lines.
pub proof fn lemma_diff_balance(l1: Seq<Seq<char>>, l2: Seq<Seq<char>>)
    ensures
        count_added(diff_changes(l1, l2)) - count_removed(diff_changes(l1, l2)) == l2.len()
            - l1.len(),
{
    lemma_balance_upto(l1, l2, if l1.len() >= l2.len() { l1.len() } else { l2.len() });
}

proof fn lemma_identical_upto(l: Seq<Seq<char>>, k: nat)
    requires
        k <= l.len(),
    ensures
        changes_upto(l, l, k) == Seq::<ChangeView>::empty(),
    decreases k,
{
    if k > 0 {
        lemma_identical_upto(l, (k - 1) as nat);
        assert(changes_upto(l, l, k) =~= Seq::<ChangeView>::empty());
    }
}

/// Comparing a text with itself finds no change.
pub proof fn lemma_diff_identical(l: Seq<Seq<char>>)
    ensures
        diff_changes(l, l) == Seq::<ChangeView>::empty(),
{
    lemma_identical_upto(l, l.len());
}

proof fn lemma_upto_empty(l1: Seq<Seq<char>>, l2: Seq<Seq<char>>, k: nat)
    ensures
        changes_upto(l1, l2, k).len() == 0 <==> forall|i: int|
            0 <= i < k ==> #[trigger] change_at(l1, l2, i).len() == 0,
    decreases k,
{
    if k > 0 {
        lemma_upto_empty(l1, l2, (k - 1) as nat);
        let a = changes_upto(l1, l2, (k - 1) as nat);
        let b = change_at(l1, l2, k - 1);
        assert((a + b).len() == a.len() + b.len());
        if changes_upto(l1, l2, k).len() == 0 {
            assert forall|i: int| 0 <= i < k implies #[trigger] change_at(l1, l2, i).len() == 0 by {
                if i < k - 1 {
                    assert(change_at(l1, l2, i).len() == 0);
                }
            }
        } else {
            if a.len() == 0 {
                assert(change_at(l1, l2, k - 1).len() != 0);
            } else {
                let j = choose|j: int| 0 <= j < k - 1 && #[trigger] change_at(l1, l2, j).len() != 0;
                assert(change_at(l1, l2, j).len() != 0);
            }
        }
    }
}

/// Two lines at the same index give no change exactly when they are equal,
/// character for character.
pub proof fn lemma_change_at_empty(l1: Seq<Seq<char>>, l2: Seq<Seq<char>>, i: int)
    requires
        0 <= i < l1.len(),
        i < l2.len(),
    ensures
        change_at(l1, l2, i).len() == 0 <==> l1[i] == l2[i],
{
}

/// The comparison finds no change exactly when the two texts have the same
/// lines.
pub proof fn lemma_diff_empty_iff_equal(l1: Seq<Seq<char>>, l2: Seq<Seq<char>>)
    ensures
        diff_changes(l1, l2).len() == 0 <==> l1 == l2,
{
    let k: nat = if l1.len() >= l2.len() { l1.len() } else { l2.len() };
    lemma_upto_empty(l1, l2, k);
    if l1 == l2 {
        lemma_diff_identical(l1);
    } else if diff_changes(l1, l2).len() == 0 {
        if l1.len() != l2.len() {
            let m: int = if l1.len() < l2.len() { l1.len() as int } else { l2.len() as int };
            assert(change_at(l1, l2, m).len() != 0);
        } else {
            assert forall|i: int| 0 <= i < l1.len() implies l1[i] == l2[i] by {
                assert(change_at(l1, l2, i).len() == 0);
            }
            assert(l1 =~= l2);
        }
    }
}

// ---------------------------------------------------------------------------
// Condensing unified diffs
// ---------------------------------------------------------------------------

/// The state of the condenser between lines: output lines so far, current
/// file, its added and removed counts, and its kept changed lines.
pub type CondenseState = (Seq<Seq<char>>, Seq<char>, nat, nat, Seq<Seq<char>>);

/// The summary of one file: `📄 file (+A -R)`, its first ten changed lines
/// indented, and `... +N more` counting every changed line not shown.
pub open spec fn file_summary(
    file: Seq<char>,
    added: nat,
    removed: nat,
    changes: Seq<Seq<char>>,
) -> Seq<Seq<char>> {
    let head = "📄 "@ + file + " (+"@ + decimal(added) + " -"@ + decimal(removed) + ")"@;
    let shown = first_n(changes, 10).map_values(|c: Seq<char>| "  "@ + c);
    let more = if added + removed > 10 {
        seq!["  ... +"@ + decimal((added + removed - 10) as nat) + " more"@]
    } else {
        Seq::<Seq<char>>::empty()
    };
    seq![head] + shown + more
}

/// The output after closing the current file: its summary is added when it
/// has a name and changed lines.
pub open spec fn flush(st: CondenseState) -> Seq<Seq<char>> {
    if st.1.len() > 0 && (st.2 > 0 || st.3 > 0) {
        st.0 + file_summary(st.1, st.2, st.3, st.4)
    } else {
        st.0
    }
}

/// `s` with every leading repetition of `p` removed (`str::trim_start_matches`).
pub open spec fn strip_repeated(s: Seq<char>, p: Seq<char>) -> Seq<char>
    decreases s.len(),
{
    if p.len() > 0 && has_prefix(s, p) {
        strip_repeated(s.skip(p.len() as int), p)
    } else {
        s
    }
}

/// The condenser's step on one line: a `+++ ` header closes the current file
/// and opens the named one (without `+++ ` and `b/` prefixes); other headers
/// (`diff --git`, `--- `) are skipped; an added or removed line is counted,
/// and kept (cut to 70 characters) while fewer than 10 are kept.
pub open spec fn condense_step(st: CondenseState, line: Seq<char>) -> CondenseState {
    if has_prefix(line, "diff --git"@) || has_prefix(line, "--- "@) || has_prefix(line, "+++ "@) {
        if has_prefix(line, "+++ "@) {
            (
                flush(st),
                strip_repeated(strip_repeated(line, "+++ "@), "b/"@),
                0,
                0,
                Seq::<Seq<char>>::empty(),
            )
        } else {
            st
        }
    } else if has_prefix(line, "+"@) && !has_prefix(line, "+++"@) {
        (
            st.0,
            st.1,
            st.2 + 1,
            st.3,
            if st.4.len() < 10 {
                st.4.push(truncate_spec(line, 70))
            } else {
                st.4
            },
        )
    } else if has_prefix(line, "-"@) && !has_prefix(line, "---"@) {
        (
            st.0,
            st.1,
            st.2,
            st.3 + 1,
            if st.4.len() < 10 {
                st.4.push(truncate_spec(line, 70))
            } else {
                st.4
            },
        )
    } else {
        st
    }
}

/// The condenser's state after the lines `ls`.
pub open spec fn condense_fold(ls: Seq<Seq<char>>) -> CondenseState
    decreases ls.len(),
{
    if ls.len() == 0 {
        (
            Seq::<Seq<char>>::empty(),
            Seq::<char>::empty(),
            0,
            0,
            Seq::<Seq<char>>::empty(),
        )
    } else {
        condense_step(condense_fold(ls.drop_last()), ls.last())
    }
}

/// The condensed form of a unified diff: one summary per changed file.
pub open spec fn condense_spec(diff: Seq<char>) -> Seq<char> {
    join(flush(condense_fold(lines(diff))), seq!['\n'])
}

/// How many of the lines are added lines: they start with `+`, not `+++`.
pub open spec fn added_line_count(ls: Seq<Seq<char>>) -> nat
    decreases ls.len(),
{
    if ls.len() == 0 {
        0
    } else {
        added_line_count(ls.drop_last()) + if has_prefix(ls.last(), "+"@) && !has_prefix(
            ls.last(),
            "+++"@,
        ) {
            1nat
        } else {
            0nat
        }
    }
}

/// How many of the lines are removed lines: they start with `-`, not `---`.
pub open spec fn removed_line_count(ls: Seq<Seq<char>>) -> nat
    decreases ls.len(),
{
    if ls.len() == 0 {
        0
    } else {
        removed_line_count(ls.drop_last()) + if has_prefix(ls.last(), "-"@) && !has_prefix(
            ls.last(),
            "---"@,
        ) {
            1nat
        } else {
            0nat
        }
    }
}

/// Each file of a unified diff is summed up on its own lines alone: after the
/// lines `before`, a `+++ ` header and a body holding no further `+++ `
/// header, the output so far is what `before` left, the current file is the
/// one the header names, and its counts are the body's added and removed
/// lines, which its summary line `📄 file (+A -R)` shows.
pub proof fn lemma_section_counts(before: Seq<Seq<char>>, header: Seq<char>, body: Seq<Seq<char>>)
    requires
        has_prefix(header, "+++ "@),
        forall|j: int| 0 <= j < body.len() ==> !has_prefix(#[trigger] body[j], "+++ "@),
    ensures
        ({
            let st = condense_fold(before + seq![header] + body);
            let file = strip_repeated(strip_repeated(header, "+++ "@), "b/"@);
            let a = added_line_count(body);
            let r = removed_line_count(body);
            &&& st.0 == flush(condense_fold(before))
            &&& st.1 == file
            &&& st.2 == a
            &&& st.3 == r
            &&& file.len() > 0 && a + r > 0 ==> flush(st).len() > st.0.len() && flush(st)[st.0.len() as int]
                == "📄 "@ + file + " (+"@ + decimal(a) + " -"@ + decimal(r) + ")"@
        }),
    decreases body.len(),
{
    let xs = before + seq![header] + body;
    if body.len() == 0 {
        assert(xs.drop_last() =~= before);
        assert(xs.last() == header);
    } else {
        let init = body.drop_last();
        assert forall|j: int| 0 <= j < init.len() implies !has_prefix(#[trigger] init[j], "+++ "@) by {
            assert(init[j] == body[j]);
        }
        lemma_section_counts(before, header, init);
        assert(xs.drop_last() =~= before + seq![header] + init);
        let l = body.last();
        assert(xs.last() == l);
        assert(!has_prefix(l, "+++ "@));
        reveal_strlit("diff --git");
        reveal_strlit("--- ");
        reveal_strlit("---");
        reveal_strlit("+++");
        reveal_strlit("+");
        reveal_strlit("-");
        if has_prefix(l, "diff --git"@) {
            assert("diff --git"@.len() == 10);
            assert(l.take(10)[0] == "diff --git"@[0]);
            assert(l[0] == 'd');
            if has_prefix(l, "+"@) {
                assert(l.take(1)[0] == "+"@[0]);
            }
            if has_prefix(l, "-"@) {
                assert(l.take(1)[0] == "-"@[0]);
            }
        } else if has_prefix(l, "--- "@) {
            assert(l.take(4)[0] == '-' && l.take(4)[1] == '-' && l.take(4)[2] == '-');
            assert(l.take(3) =~= "---"@);
            if has_prefix(l, "+"@) {
                assert(l.take(1)[0] == "+"@[0]);
            }
        } else if has_prefix(l, "+"@) {
            assert(l.take(1)[0] == "+"@[0]);
            if has_prefix(l, "-"@) {
                assert(l.take(1)[0] == "-"@[0]);
            }
        }
    }
    let st = condense_fold(xs);
    let file = strip_repeated(strip_repeated(header, "+++ "@), "b/"@);
    assert(st.1 == file);
    assert(st.2 == added_line_count(body));
    assert(st.3 == removed_line_count(body));
    if file.len() > 0 && added_line_count(body) + removed_line_count(body) > 0 {
        assert(flush(st) == st.0 + file_summary(st.1, st.2, st.3, st.4));
        let fs = file_summary(st.1, st.2, st.3, st.4);
        assert(fs[0] == "📄 "@ + file + " (+"@ + decimal(st.2) + " -"@ + decimal(st.3) + ")"@);
        assert(flush(st)[st.0.len() as int] == fs[0]);
        assert(flush(st)[st.0.len() as int] == "📄 "@ + file + " (+"@ + decimal(added_line_count(body))
            + " -"@ + decimal(removed_line_count(body)) + ")"@);
    }
}

/// `s` with every leading repetition of `p` removed.
fn strip_repeated_chars(s: &[char], p: &str) -> (r: Vec<char>)
    ensures
        r@ == strip_repeated(s@, p@),
{
    let pc = chars_of(p);
    let mut i: usize = 0;
    proof {
        assert(s@.skip(0) =~= s@);
    }
    loop
        invariant
            pc@ == p@,
            0 <= i <= s@.len(),
            strip_repeated(s@, p@) == strip_repeated(s@.skip(i as int), p@),
        decreases s@.len() - i,
    {
        let rest = slice_chars(s, i, s.len());
        proof {
            assert(rest@ =~= s@.skip(i as int));
        }
        if pc.len() > 0 && starts_with_str(rest.as_slice(), p) {
            proof {
                assert(s@.skip(i as int).skip(pc@.len() as int) =~= s@.skip(i + pc@.len()));
            }
            i = i + pc.len();
        } else {
            return rest;
        }
    }
}

/// Appends one file summary to `result` when the file has a name and changes.
fn flush_into(
    result: &mut Vec<Vec<char>>,
    file: &[char],
    added: usize,
    removed: usize,
    changes: &Vec<Vec<char>>,
)
    requires
        added + removed <= usize::MAX,
    ensures
        views(final(result)@) == flush(
            (views(old(result)@), file@, added as nat, removed as nat, views(changes@)),
        ),
{
    if !(file.len() > 0 && (added > 0 || removed > 0)) {
        return;
    }
    let ghost start = views(result@);
    let mut head: Vec<char> = Vec::new();
    append_str(&mut head, "📄 ");
    append_chars(&mut head, file);
    append_str(&mut head, " (+");
    push_decimal(&mut head, added);
    append_str(&mut head, " -");
    push_decimal(&mut head, removed);
    append_str(&mut head, ")");
    proof {
        assert(head@ =~= "📄 "@ + file@ + " (+"@ + decimal(added as nat) + " -"@ + decimal(
            removed as nat,
        ) + ")"@);
    }
    result.push(head);
    let ghost cv = views(changes@);
    let ghost shown = first_n(cv, 10).map_values(|c: Seq<char>| "  "@ + c);
    let k = if changes.len() < 10 {
        changes.len()
    } else {
        10
    };
    let mut j: usize = 0;
    while j < k
        invariant
            cv == views(changes@),
            k == if cv.len() < 10 { cv.len() } else { 10 },
            shown == first_n(cv, 10).map_values(|c: Seq<char>| "  "@ + c),
            0 <= j <= k,
            views(result@) =~= start.push(
                "📄 "@ + file@ + " (+"@ + decimal(added as nat) + " -"@ + decimal(removed as nat)
                    + ")"@,
            ) + shown.take(j as int),
        decreases k - j,
    {
        let mut line: Vec<char> = Vec::new();
        append_str(&mut line, "  ");
        append_chars(&mut line, changes[j].as_slice());
        let ghost before = views(result@);
        proof {
            assert(shown[j as int] == "  "@ + cv[j as int]);
            assert(line@ == shown[j as int]);
        }
        result.push(line);
        proof {
            assert(views(result@) =~= before.push(shown[j as int]));
            assert(shown.take(j + 1) =~= shown.take(j as int).push(shown[j as int]));
        }
        j = j + 1;
    }
    proof {
        assert(shown.take(k as int) =~= shown);
    }
    let total = added + removed;
    if total > 10 {
        let mut line: Vec<char> = Vec::new();
        append_str(&mut line, "  ... +");
        push_decimal(&mut line, total - 10);
        append_str(&mut line, " more");
        let ghost before = views(result@);
        result.push(line);
        proof {
            assert(views(result@) =~= before.push(line@));
        }
    }
    proof {
        let head_v = "📄 "@ + file@ + " (+"@ + decimal(added as nat) + " -"@ + decimal(
            removed as nat,
        ) + ")"@;
        let more = if added + removed > 10 {
            seq!["  ... +"@ + decimal((added + removed - 10) as nat) + " more"@]
        } else {
            Seq::<Seq<char>>::empty()
        };
        assert(views(result@) =~= start + (seq![head_v] + shown + more));
    }
}

/// Condenses unified diff output (as from `git diff`) to one summary per
/// changed file: `📄 file (+A -R)`, up to ten of its changed lines (cut to 70
/// characters), and `... +N more` counting the file's other changed lines.
pub fn condense_unified_diff(diff: &str) -> (r: String)
    ensures
        r@ == condense_spec(diff@),
{
    let dc = chars_of(diff);
    let ls = lines_of(dc.as_slice());
    let ghost lv = views(ls@);
    let mut result: Vec<Vec<char>> = Vec::new();
    let mut current_file: Vec<char> = Vec::new();
    let mut added: usize = 0;
    let mut removed: usize = 0;
    let mut changes: Vec<Vec<char>> = Vec::new();
    let mut i: usize = 0;
    proof {
        assert(views(result@) =~= Seq::<Seq<char>>::empty());
        assert(views(changes@) =~= Seq::<Seq<char>>::empty());
        assert(lv.take(0) =~= Seq::<Seq<char>>::empty());
    }
    while i < ls.len()
        invariant
            lv == views(ls@),
            0 <= i <= ls@.len(),
            added + removed <= i,
            condense_fold(lv.take(i as int)) == (
                views(result@),
                current_file@,
                added as nat,
                removed as nat,
                views(changes@),
            ),
        decreases ls@.len() - i,
    {
        let line = &ls[i];
        let ghost st = condense_fold(lv.take(i as int));
        proof {
            assert(lv.take(i + 1).drop_last() =~= lv.take(i as int));
            assert(lv.take(i + 1).last() == line@);
        }
        let is_diff = starts_with_str(line.as_slice(), "diff --git");
        let is_minus3 = starts_with_str(line.as_slice(), "--- ");
        let is_plus3 = starts_with_str(line.as_slice(), "+++ ");
        if is_diff || is_minus3 || is_plus3 {
            if is_plus3 {
                flush_into(&mut result, current_file.as_slice(), added, removed, &changes);
                let f1 = strip_repeated_chars(line.as_slice(), "+++ ");
                current_file = strip_repeated_chars(f1.as_slice(), "b/");
                added = 0;
                removed = 0;
                changes = Vec::new();
                proof {
                    assert(views(changes@) =~= Seq::<Seq<char>>::empty());
                }
            }
        } else if starts_with_str(line.as_slice(), "+") && !starts_with_str(line.as_slice(), "+++") {
            added = added + 1;
            if changes.len() < 10 {
                let ghost before = views(changes@);
                changes.push(truncate_chars(line.as_slice(), 70));
                proof {
                    assert(views(changes@) =~= before.push(truncate_spec(line@, 70)));
                }
            }
        } else if starts_with_str(line.as_slice(), "-") && !starts_with_str(line.as_slice(), "---") {
            removed = removed + 1;
            if changes.len() < 10 {
                let ghost before = views(changes@);
                changes.push(truncate_chars(line.as_slice(), 70));
                proof {
                    assert(views(changes@) =~= before.push(truncate_spec(line@, 70)));
                }
            }
        }
        i = i + 1;
    }
    proof {
        assert(lv.take(ls@.len() as int) =~= lv);
    }
    flush_into(&mut result, current_file.as_slice(), added, removed, &changes);
    let nl: Vec<char> = vec!['\n'];
    let out = join_chars(&result, nl.as_slice());
    proof {
        assert(nl@ =~= seq!['\n']);
    }
    string_from_chars(out.as_slice())
}

// ---------------------------------------------------------------------------
// The report of a two-file comparison
// ---------------------------------------------------------------------------

/// `n` in decimal, right-aligned in four columns (`{:4}`).
pub open spec fn pad4(n: nat) -> Seq<char> {
    let d = decimal(n);
    if d.len() < 4 {
        Seq::new((4 - d.len()) as nat, |i: int| ' ') + d
    } else {
        d
    }
}

/// One report line for a change.
pub open spec fn change_line(c: ChangeView) -> Seq<char> {
    match c {
        ChangeView::Added(n, s) => "+"@ + pad4(n) + " "@ + truncate_spec(s, 80) + "\n"@,
        ChangeView::Removed(n, s) => "-"@ + pad4(n) + " "@ + truncate_spec(s, 80) + "\n"@,
        ChangeView::Modified(n, a, b) => "~"@ + pad4(n) + " "@ + truncate_spec(a, 70) + " → "@
            + truncate_spec(b, 70) + "\n"@,
    }
}

/// The report of comparing two files: `✅ Files are identical` when nothing
/// was added, removed or modified; otherwise a title, the counts, the first 50 changes
/// and how many more there were.
pub open spec fn diff_report_spec(
    file1: Seq<char>,
    file2: Seq<char>,
    added: nat,
    removed: nat,
    modified: nat,
    changes: Seq<ChangeView>,
) -> Seq<char> {
    if added == 0 && removed == 0 && modified == 0 {
        "✅ Files are identical"@
    } else {
        "📊 "@ + file1 + " → "@ + file2 + "\n"@ + "   +"@ + decimal(added) + " added, -"@
            + decimal(removed) + " removed, ~"@ + decimal(modified) + " modified\n\n"@ + join(
            first_n(changes, 50).map_values(|c: ChangeView| change_line(c)),
            Seq::<char>::empty(),
        ) + if changes.len() > 50 {
            "... +"@ + decimal((changes.len() - 50) as nat) + " more changes"@
        } else {
            Seq::<char>::empty()
        }
    }
}

/// Appends `n` right-aligned in four columns.
fn push_pad4(out: &mut Vec<char>, n: usize)
    ensures
        final(out)@ == old(out)@ + pad4(n as nat),
{
    let mut d: Vec<char> = Vec::new();
    push_decimal(&mut d, n);
    assert(d@ =~= decimal(n as nat));
    let mut k = d.len();
    let ghost pad_len: nat = if d@.len() < 4 { (4 - d@.len()) as nat } else { 0 };
    let ghost start = out@;
    while k < 4
        invariant
            d@ == decimal(n as nat),
            d@.len() <= k <= 4 || (k == d@.len() && k >= 4),
            pad_len == if d@.len() < 4 { (4 - d@.len()) as nat } else { 0 },
            out@ == start + Seq::new((k - d@.len()) as nat, |i: int| ' '),
        decreases 4 - k,
    {
        out.push(' ');
        proof {
            assert(start + Seq::new((k + 1 - d@.len()) as nat, |i: int| ' ') =~= (start + Seq::new(
                (k - d@.len()) as nat,
                |i: int| ' ',
            )).push(' '));
        }
        k = k + 1;
    }
    append_chars(out, d.as_slice());
    proof {
        if d@.len() >= 4 {
            assert(Seq::new((k - d@.len()) as nat, |i: int| ' ') =~= Seq::<char>::empty());
        }
        assert(final(out)@ =~= start + pad4(n as nat));
    }
}

/// Appends the report line of one change.
fn push_change_line(out: &mut Vec<char>, c: &DiffChange)
    ensures
        final(out)@ == old(out)@ + change_line(change_view(*c)),
{
    match c {
        DiffChange::Added(n, s) => {
            append_str(out, "+");
            push_pad4(out, *n);
            append_str(out, " ");
            let t = truncate_chars(chars_of(s.as_str()).as_slice(), 80);
            append_chars(out, t.as_slice());
            append_str(out, "\n");
        },
        DiffChange::Removed(n, s) => {
            append_str(out, "-");
            push_pad4(out, *n);
            append_str(out, " ");
            let t = truncate_chars(chars_of(s.as_str()).as_slice(), 80);
            append_chars(out, t.as_slice());
            append_str(out, "\n");
        },
        DiffChange::Modified(n, a, b) => {
            append_str(out, "~");
            push_pad4(out, *n);
            append_str(out, " ");
            let ta = truncate_chars(chars_of(a.as_str()).as_slice(), 70);
            append_chars(out, ta.as_slice());
            append_str(out, " → ");
            let tb = truncate_chars(chars_of(b.as_str()).as_slice(), 70);
            append_chars(out, tb.as_slice());
            append_str(out, "\n");
        },
    }
    proof {
        assert(final(out)@ =~= old(out)@ + change_line(change_view(*c)));
    }
}

/// The report of comparing `file1` and `file2` (their display names).
pub fn diff_report(file1: &str, file2: &str, diff: &DiffResult) -> (r: String)
    ensures
        r@ == diff_report_spec(
            file1@,
            file2@,
            diff.added as nat,
            diff.removed as nat,
            diff.modified as nat,
            changes_view(diff.changes@),
        ),
{
    let mut out: Vec<char> = Vec::new();
    if diff.added == 0 && diff.removed == 0 && diff.modified == 0 {
        append_str(&mut out, "✅ Files are identical");
        return string_from_chars(out.as_slice());
    }
    append_str(&mut out, "📊 ");
    append_str(&mut out, file1);
    append_str(&mut out, " → ");
    append_str(&mut out, file2);
    append_str(&mut out, "\n");
    append_str(&mut out, "   +");
    push_decimal(&mut out, diff.added);
    append_str(&mut out, " added, -");
    push_decimal(&mut out, diff.removed);
    append_str(&mut out, " removed, ~");
    push_decimal(&mut out, diff.modified);
    append_str(&mut out, " modified\n\n");
    let ghost head = out@;
    let ghost cv = changes_view(diff.changes@);
    let ghost ls = first_n(cv, 50).map_values(|c: ChangeView| change_line(c));
    let k = if diff.changes.len() < 50 {
        diff.changes.len()
    } else {
        50
    };
    let mut j: usize = 0;
    while j < k
        invariant
            cv == changes_view(diff.changes@),
            ls == first_n(cv, 50).map_values(|c: ChangeView| change_line(c)),
            k == if cv.len() < 50 { cv.len() } else { 50 },
            0 <= j <= k,
            out@ == head + join(ls.take(j as int), Seq::<char>::empty()),
        decreases k - j,
    {
        push_change_line(&mut out, &diff.changes[j]);
        proof {
            assert(ls.take(j + 1).drop_last() =~= ls.take(j as int));
            assert(ls[j as int] == change_line(cv[j as int]));
            if j == 0 {
                assert(join(ls.take(1), Seq::<char>::empty()) == ls.take(1)[0]);
            }
            assert(out@ =~= head + join(ls.take(j + 1), Seq::<char>::empty()));
        }
        j = j + 1;
    }
    proof {
        assert(ls.take(k as int) =~= ls);
    }
    if diff.changes.len() > 50 {
        append_str(&mut out, "... +");
        push_decimal(&mut out, diff.changes.len() - 50);
        append_str(&mut out, " more changes");
    }
    proof {
        assert(out@ =~= diff_report_spec(
            file1@,
            file2@,
            diff.added as nat,
            diff.removed as nat,
            diff.modified as nat,
            cv,
        ));
    }
    string_from_chars(out.as_slice())
}

/// `lines` as string slices.
fn line_strs(lines: &Vec<String>) -> (r: Vec<&str>)
    ensures
        str_views(r@) == lines@.map_values(|l: String| l@),
{
    let mut r: Vec<&str> = Vec::new();
    let mut i: usize = 0;
    while i < lines.len()
        invariant
            0 <= i <= lines@.len(),
            str_views(r@) =~= lines@.map_values(|l: String| l@).take(i as int),
        decreases lines@.len() - i,
    {
        let ghost before = str_views(r@);
        r.push(lines[i].as_str());
        proof {
            assert(str_views(r@) =~= before.push(lines@[i as int]@));
            assert(lines@.map_values(|l: String| l@).take(i + 1) =~= lines@.map_values(
                |l: String| l@,
            ).take(i as int).push(lines@[i as int]@));
        }
        i = i + 1;
    }
    proof {
        assert(lines@.map_values(|l: String| l@).take(lines@.len() as int) =~= lines@.map_values(
            |l: String| l@,
        ));
    }
    r
}

/// The lines of `text` as strings.
fn text_lines(text: &str) -> (r: Vec<String>)
    ensures
        r@.map_values(|l: String| l@) == lines(text@),
{
    let tc = chars_of(text);
    let ls = lines_of(tc.as_slice());
    let mut r: Vec<String> = Vec::new();
    let mut i: usize = 0;
    while i < ls.len()
        invariant
            0 <= i <= ls@.len(),
            views(ls@) == lines(text@),
            r@.map_values(|l: String| l@) =~= views(ls@).take(i as int),
        decreases ls@.len() - i,
    {
        let ghost before = r@.map_values(|l: String| l@);
        r.push(string_from_chars(ls[i].as_slice()));
        proof {
            assert(r@.map_values(|l: String| l@) =~= before.push(views(ls@)[i as int]));
            assert(views(ls@).take(i + 1) =~= views(ls@).take(i as int).push(views(ls@)[i as int]));
        }
        i = i + 1;
    }
    proof {
        assert(views(ls@).take(ls@.len() as int) =~= views(ls@));
    }
    r
}

/// Compares two texts line by line (lines as `str::lines` gives them).
pub fn compare_texts(content1: &str, content2: &str) -> (r: DiffResult)
    ensures
        changes_view(r.changes@) == diff_changes(lines(content1@), lines(content2@)),
        r.added == count_added(changes_view(r.changes@)),
        r.removed == count_removed(changes_view(r.changes@)),
        r.modified == count_modified(changes_view(r.changes@)),
{
    let l1 = text_lines(content1);
    let l2 = text_lines(content2);
    let s1 = line_strs(&l1);
    let s2 = line_strs(&l2);
    compute_diff(s1.as_slice(), s2.as_slice())
}

/// What comparing two files prints, and the exit status: the report and a
/// newline with status 0 when nothing changed; otherwise the report with
/// status 1, as `diff` does for files that differ.
pub fn diff_files_output(file1: &str, file2: &str, content1: &str, content2: &str) -> (r: (
    String,
    i32,
))
    ensures
        ({
            let cs = diff_changes(lines(content1@), lines(content2@));
            let report = diff_report_spec(
                file1@,
                file2@,
                count_added(cs),
                count_removed(cs),
                count_modified(cs),
                cs,
            );
            if cs.len() == 0 {
                r.0@ == report + seq!['\n'] && r.1 == 0
            } else {
                r.0@ == report && r.1 == 1
            }
        }),
        r.1 == 0 <==> lines(content1@) == lines(content2@),
{
    proof {
        lemma_diff_empty_iff_equal(lines(content1@), lines(content2@));
    }
    let diff = compare_texts(content1, content2);
    let report = diff_report(file1, file2, &diff);
    proof {
        lemma_change_counts_sum(changes_view(diff.changes@));
    }
    if diff.changes.len() == 0 {
        let mut out = chars_of(report.as_str());
        out.push('\n');
        (string_from_chars(out.as_slice()), 0)
    } else {
        (report, 1)
    }
}

} // verus!
