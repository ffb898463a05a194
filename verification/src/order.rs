//! The order in which the children of a directory are shown.

use vstd::prelude::*;
use crate::entry::{Entry, EntryView};

verus! {

/// Lexicographic order on byte strings: `a` comes no later than `b`.
pub open spec fn lex_le(a: Seq<u8>, b: Seq<u8>) -> bool
    decreases a.len(),
{
    if a.len() == 0 {
        true
    } else if b.len() == 0 {
        false
    } else if a[0] != b[0] {
        a[0] < b[0]
    } else {
        lex_le(a.drop_first(), b.drop_first())
    }
}

/// Every byte string comes no later than itself.
pub proof fn lemma_lex_le_reflexive(a: Seq<u8>)
    ensures
        lex_le(a, a),
    decreases a.len(),
{
    if a.len() > 0 {
        lemma_lex_le_reflexive(a.drop_first());
    }
}

/// Of two byte strings one comes no later than the other.
pub proof fn lemma_lex_le_total(a: Seq<u8>, b: Seq<u8>)
    ensures
        lex_le(a, b) || lex_le(b, a),
    decreases a.len(),
{
    if a.len() > 0 && b.len() > 0 && a[0] == b[0] {
        lemma_lex_le_total(a.drop_first(), b.drop_first());
    }
}

/// Two byte strings that come no later than each other are the same.
pub proof fn lemma_lex_le_antisymmetric(a: Seq<u8>, b: Seq<u8>)
    requires
        lex_le(a, b),
        lex_le(b, a),
    ensures
        a == b,
    decreases a.len(),
{
    if a.len() == 0 || b.len() == 0 {
        assert(a =~= b);
    } else {
        lemma_lex_le_antisymmetric(a.drop_first(), b.drop_first());
        assert(a =~= seq![a[0]] + a.drop_first());
        assert(b =~= seq![b[0]] + b.drop_first());
    }
}

/// The order passes along a chain.
pub proof fn lemma_lex_le_transitive(a: Seq<u8>, b: Seq<u8>, c: Seq<u8>)
    requires
        lex_le(a, b),
        lex_le(b, c),
    ensures
        lex_le(a, c),
    decreases a.len(),
{
    if a.len() > 0 && a[0] == b[0] && b[0] == c[0] {
        lemma_lex_le_transitive(a.drop_first(), b.drop_first(), c.drop_first());
    }
}

/// Whether `a` comes no later than `b` in lexicographic byte order.
pub fn path_le(a: &Vec<u8>, b: &Vec<u8>) -> (r: bool)
    ensures
        r == lex_le(a@, b@),
{
    let mut i: usize = 0;
    assert(a@.skip(0) =~= a@ && b@.skip(0) =~= b@);
    while i < a.len() && i < b.len()
        invariant
            i <= a.len(),
            i <= b.len(),
            lex_le(a@, b@) == lex_le(a@.skip(i as int), b@.skip(i as int)),
        decreases a.len() - i,
    {
        proof {
            assert(a@.skip(i as int).drop_first() =~= a@.skip(i as int + 1));
            assert(b@.skip(i as int).drop_first() =~= b@.skip(i as int + 1));
        }
        if a[i] != b[i] {
            return a[i] < b[i];
        }
        i += 1;
    }
    i == a.len()
}

/// The children whose lookup succeeded, in the order of the listing.
pub open spec fn kept(listing: Seq<Option<EntryView>>) -> Seq<EntryView>
    decreases listing.len(),
{
    if listing.len() == 0 {
        Seq::empty()
    } else {
        match listing.last() {
            Some(e) => kept(listing.drop_last()).push(e),
            None => kept(listing.drop_last()),
        }
    }
}

/// Whether the paths never go down along `s`.
pub open spec fn in_order(s: Seq<EntryView>) -> bool {
    forall|i: int, j: int|
        #![trigger s[i], s[j]]
        0 <= i <= j < s.len() ==> lex_le(s[i].path, s[j].path)
}

/// Whether no two entries of `s` have the same path.
pub open spec fn distinct_paths(s: Seq<EntryView>) -> bool {
    forall|i: int, j: int|
        #![trigger s[i], s[j]]
        0 <= i < j < s.len() ==> s[i].path != s[j].path
}

/// `e` put into `sorted` behind every entry that comes no later.
pub open spec fn placed(sorted: Seq<EntryView>, e: EntryView) -> Seq<EntryView>
    decreases sorted.len(),
{
    if sorted.len() == 0 || lex_le(sorted.last().path, e.path) {
        sorted.push(e)
    } else {
        placed(sorted.drop_last(), e).push(sorted.last())
    }
}

/// The entries of `s` by ascending path; those of one path stay in the order
/// in which `s` has them.
pub open spec fn by_path(s: Seq<EntryView>) -> Seq<EntryView>
    decreases s.len(),
{
    if s.len() == 0 {
        s
    } else {
        placed(by_path(s.drop_last()), s.last())
    }
}

/// What is shown of a listing: the children that could be looked up, by
/// ascending path.
pub open spec fn arranged(listing: Seq<Option<EntryView>>) -> Seq<EntryView> {
    by_path(kept(listing))
}

/// Putting an entry in place keeps the order, and adds that entry and nothing
/// else.
pub proof fn lemma_placed_in_order(sorted: Seq<EntryView>, e: EntryView)
    ensures
        in_order(sorted) ==> in_order(placed(sorted, e)),
        placed(sorted, e).to_multiset() == sorted.to_multiset().insert(e),
        placed(sorted, e).len() == sorted.len() + 1,
    decreases sorted.len(),
{
    broadcast use vstd::seq_lib::to_multiset_build;

    if sorted.len() == 0 || lex_le(sorted.last().path, e.path) {
        if in_order(sorted) {
            let out = sorted.push(e);
            assert forall|i: int, j: int| 0 <= i <= j < out.len() implies lex_le(
                #[trigger] out[i].path,
                #[trigger] out[j].path,
            ) by {
                if j < sorted.len() {
                    assert(lex_le(sorted[i].path, sorted[j].path));
                } else if i < sorted.len() {
                    assert(lex_le(sorted[i].path, sorted.last().path));
                    lemma_lex_le_transitive(sorted[i].path, sorted.last().path, e.path);
                } else {
                    lemma_lex_le_reflexive(e.path);
                }
            }
        }
    } else {
        let front = sorted.drop_last();
        let last = sorted.last();
        lemma_placed_in_order(front, e);
        assert(sorted =~= front.push(last));
        assert(front.to_multiset().insert(e).insert(last) =~= front.to_multiset().insert(
            last,
        ).insert(e));
        if in_order(sorted) {
            let inner = placed(front, e);
            let out = inner.push(last);
            assert(in_order(front)) by {
                assert forall|i: int, j: int| 0 <= i <= j < front.len() implies lex_le(
                    #[trigger] front[i].path,
                    #[trigger] front[j].path,
                ) by {
                    assert(lex_le(sorted[i].path, sorted[j].path));
                }
            }
            lemma_lex_le_total(last.path, e.path);
            assert forall|i: int, j: int| 0 <= i <= j < out.len() implies lex_le(
                #[trigger] out[i].path,
                #[trigger] out[j].path,
            ) by {
                if j < inner.len() {
                    assert(lex_le(inner[i].path, inner[j].path));
                } else if i < inner.len() {
                    // inner[i] is `e` or an entry of `front`
                    let x = inner[i];
                    assert(inner.to_multiset().count(x) > 0) by {
                        broadcast use vstd::seq_lib::to_multiset_contains;

                        assert(inner.contains(x));
                    }
                    if x == e {
                    } else {
                        assert(front.to_multiset().count(x) > 0);
                        assert(front.contains(x)) by {
                            broadcast use vstd::seq_lib::to_multiset_contains;

                        }
                        let k = choose|k: int| 0 <= k < front.len() && front[k] == x;
                        assert(lex_le(sorted[k].path, sorted[sorted.len() - 1].path));
                    }
                } else {
                    lemma_lex_le_reflexive(last.path);
                }
            }
        }
    }
}

/// `by_path` gives the same entries, each as often as before, in ascending
/// order of their paths.
pub proof fn lemma_by_path_sorts(s: Seq<EntryView>)
    ensures
        in_order(by_path(s)),
        by_path(s).to_multiset() == s.to_multiset(),
        by_path(s).len() == s.len(),
    decreases s.len(),
{
    broadcast use vstd::seq_lib::to_multiset_build;

    if s.len() > 0 {
        lemma_by_path_sorts(s.drop_last());
        lemma_placed_in_order(by_path(s.drop_last()), s.last());
        assert(s =~= s.drop_last().push(s.last()));
    }
}

/// Whether an entry has the path `path`.
pub open spec fn has_path(path: Seq<u8>) -> spec_fn(EntryView) -> bool {
    |e: EntryView| e.path == path
}

/// An entry that is put in place goes behind the entries of its own path.
proof fn lemma_placed_is_stable(sorted: Seq<EntryView>, e: EntryView, path: Seq<u8>)
    ensures
        placed(sorted, e).filter(has_path(path)) == if e.path == path {
            sorted.filter(has_path(path)).push(e)
        } else {
            sorted.filter(has_path(path))
        },
    decreases sorted.len(),
{
    reveal(Seq::filter);
    if sorted.len() == 0 || lex_le(sorted.last().path, e.path) {
        assert(sorted.push(e).drop_last() =~= sorted);
    } else {
        let inner = placed(sorted.drop_last(), e);
        lemma_placed_is_stable(sorted.drop_last(), e, path);
        assert(inner.push(sorted.last()).drop_last() =~= inner);
        if e.path == path {
            lemma_lex_le_reflexive(path);
        }
    }
}

/// Sorting is stable: the entries of one path come out in the order in which
/// they went in.
pub proof fn lemma_by_path_is_stable(s: Seq<EntryView>, path: Seq<u8>)
    ensures
        by_path(s).filter(has_path(path)) == s.filter(has_path(path)),
    decreases s.len(),
{
    reveal(Seq::filter);
    if s.len() > 0 {
        lemma_by_path_is_stable(s.drop_last(), path);
        lemma_placed_is_stable(by_path(s.drop_last()), s.last(), path);
    }
}

/// Every child that could be looked up is kept, as often as the listing has
/// it.
pub proof fn lemma_kept_keeps_lookups(listing: Seq<Option<EntryView>>, e: EntryView)
    ensures
        kept(listing).to_multiset().count(e) == listing.to_multiset().count(Some(e)),
    decreases listing.len(),
{
    broadcast use vstd::seq_lib::to_multiset_build;
    broadcast use vstd::multiset::group_multiset_axioms;

    if listing.len() == 0 {
        assert(listing.to_multiset().len() == 0) by {
            broadcast use vstd::seq_lib::to_multiset_len;

        }
        assert(kept(listing).to_multiset().len() == 0) by {
            broadcast use vstd::seq_lib::to_multiset_len;

        }
    } else {
        lemma_kept_keeps_lookups(listing.drop_last(), e);
        assert(listing =~= listing.drop_last().push(listing.last()));
    }
}

/// A child whose lookup failed changes nothing of what is shown, wherever in
/// the listing it stands.
pub proof fn lemma_failed_lookup_is_left_out(listing: Seq<Option<EntryView>>, at: int)
    requires
        0 <= at <= listing.len(),
    ensures
        kept(listing.insert(at, None)) == kept(listing),
        arranged(listing.insert(at, None)) == arranged(listing),
    decreases listing.len() - at,
{
    let longer = listing.insert(at, None);
    if at == listing.len() {
        assert(longer.drop_last() =~= listing);
    } else {
        lemma_failed_lookup_is_left_out(listing.drop_last(), at);
        assert(longer.drop_last() =~= listing.drop_last().insert(at, None));
        assert(longer.last() == listing.last());
    }
}

/// Where `placed` puts an entry.
spec fn place_index(sorted: Seq<EntryView>, e: EntryView) -> int
    decreases sorted.len(),
{
    if sorted.len() == 0 || lex_le(sorted.last().path, e.path) {
        sorted.len() as int
    } else {
        place_index(sorted.drop_last(), e)
    }
}

/// Putting an entry in place inserts it there.
proof fn lemma_placed_is_insert(sorted: Seq<EntryView>, e: EntryView)
    ensures
        0 <= place_index(sorted, e) <= sorted.len(),
        placed(sorted, e) == sorted.insert(place_index(sorted, e), e),
    decreases sorted.len(),
{
    if sorted.len() == 0 || lex_le(sorted.last().path, e.path) {
        assert(sorted.push(e) =~= sorted.insert(sorted.len() as int, e));
    } else {
        let front = sorted.drop_last();
        lemma_placed_is_insert(front, e);
        assert(front.insert(place_index(front, e), e).push(sorted.last()) =~= sorted.insert(
            place_index(front, e),
            e,
        ));
    }
}

/// Sorting entries of distinct paths leaves their paths distinct.
proof fn lemma_by_path_keeps_distinct(s: Seq<EntryView>)
    requires
        distinct_paths(s),
    ensures
        distinct_paths(by_path(s)),
    decreases s.len(),
{
    broadcast use vstd::seq_lib::to_multiset_contains;

    if s.len() > 0 {
        let front = s.drop_last();
        let e = s.last();
        assert(distinct_paths(front)) by {
            assert forall|i: int, j: int| 0 <= i < j < front.len() implies #[trigger] front[i].path
                != #[trigger] front[j].path by {
                assert(s[i].path != s[j].path);
            }
        }
        lemma_by_path_keeps_distinct(front);
        lemma_by_path_sorts(front);
        let sorted = by_path(front);
        lemma_placed_is_insert(sorted, e);
        let at = place_index(sorted, e);
        let out = sorted.insert(at, e);
        assert forall|k: int| 0 <= k < sorted.len() implies #[trigger] sorted[k].path
            != e.path by {
            assert(sorted.contains(sorted[k]));
            assert(front.to_multiset().count(sorted[k]) > 0);
            assert(front.contains(sorted[k]));
            let m = choose|m: int| 0 <= m < front.len() && front[m] == sorted[k];
            assert(s[m].path != s[s.len() - 1].path);
        }
        assert forall|i: int, j: int| 0 <= i < j < out.len() implies #[trigger] out[i].path
            != #[trigger] out[j].path by {
            if i == at {
                assert(out[j] == sorted[j - 1]);
            } else if j == at {
                assert(out[i] == sorted[i]);
            } else {
                let i0 = if i < at { i } else { i - 1 };
                let j0 = if j < at { j } else { j - 1 };
                assert(out[i] == sorted[i0] && out[j] == sorted[j0]);
                assert(sorted[i0].path != sorted[j0].path);
            }
        }
    }
}

/// Two sequences in ascending order that hold the same entries, of distinct
/// paths, are one and the same.
proof fn lemma_in_order_unique(x: Seq<EntryView>, y: Seq<EntryView>)
    requires
        in_order(x),
        in_order(y),
        distinct_paths(x),
        x.to_multiset() == y.to_multiset(),
    ensures
        x == y,
    decreases x.len(),
{
    broadcast use vstd::seq_lib::to_multiset_contains;
    broadcast use vstd::seq_lib::to_multiset_len;

    assert(x.len() == x.to_multiset().len() && y.len() == y.to_multiset().len());
    if x.len() == 0 {
        assert(x =~= y);
    } else {
        assert(x.contains(x[0]));
        assert(y.contains(y[0]));
        assert(y.contains(x[0])) by {
            assert(x.to_multiset().count(x[0]) > 0);
        }
        assert(x.contains(y[0])) by {
            assert(y.to_multiset().count(y[0]) > 0);
        }
        let i = choose|i: int| 0 <= i < x.len() && x[i] == y[0];
        let j = choose|j: int| 0 <= j < y.len() && y[j] == x[0];
        assert(lex_le(y[0].path, y[j].path));
        assert(lex_le(x[0].path, x[i].path));
        lemma_lex_le_antisymmetric(x[0].path, y[0].path);
        assert(i == 0);
        let xs = x.drop_first();
        let ys = y.drop_first();
        assert(xs.to_multiset() == ys.to_multiset()) by {
            broadcast use vstd::seq_lib::to_multiset_remove;

            assert(xs =~= x.remove(0));
            assert(ys =~= y.remove(0));
        }
        assert(in_order(xs)) by {
            assert forall|a: int, b: int| 0 <= a <= b < xs.len() implies lex_le(
                #[trigger] xs[a].path,
                #[trigger] xs[b].path,
            ) by {
                assert(lex_le(x[a + 1].path, x[b + 1].path));
            }
        }
        assert(in_order(ys)) by {
            assert forall|a: int, b: int| 0 <= a <= b < ys.len() implies lex_le(
                #[trigger] ys[a].path,
                #[trigger] ys[b].path,
            ) by {
                assert(lex_le(y[a + 1].path, y[b + 1].path));
            }
        }
        assert(distinct_paths(xs)) by {
            assert forall|a: int, b: int| 0 <= a < b < xs.len() implies #[trigger] xs[a].path
                != #[trigger] xs[b].path by {
                assert(x[a + 1].path != x[b + 1].path);
            }
        }
        lemma_in_order_unique(xs, ys);
        assert(x =~= seq![x[0]] + xs);
        assert(y =~= seq![y[0]] + ys);
    }
}

/// The order in which a directory hands out its children does not show: two
/// listings of the same items, the children of distinct paths, are arranged
/// alike.
pub proof fn lemma_arranged_ignores_listing_order(
    a: Seq<Option<EntryView>>,
    b: Seq<Option<EntryView>>,
)
    requires
        a.to_multiset() == b.to_multiset(),
        distinct_paths(kept(a)),
    ensures
        arranged(a) == arranged(b),
{
    assert(kept(a).to_multiset() =~= kept(b).to_multiset()) by {
        assert forall|e: EntryView|
            kept(a).to_multiset().count(e) == kept(b).to_multiset().count(e) by {
            lemma_kept_keeps_lookups(a, e);
            lemma_kept_keeps_lookups(b, e);
        }
    }
    lemma_by_path_sorts(kept(a));
    lemma_by_path_sorts(kept(b));
    lemma_by_path_keeps_distinct(kept(a));
    lemma_in_order_unique(arranged(a), arranged(b));
}

/// Two sequences merged from their ends: of the two last entries the one
/// that comes later goes last, and that of `b` where neither does.
spec fn merged(a: Seq<EntryView>, b: Seq<EntryView>) -> Seq<EntryView>
    decreases a.len() + b.len(),
{
    if b.len() == 0 {
        a
    } else if a.len() == 0 {
        b
    } else if lex_le(a.last().path, b.last().path) {
        merged(a, b.drop_last()).push(b.last())
    } else {
        merged(a.drop_last(), b).push(a.last())
    }
}

/// To put an entry in place behind a merge is to merge with the second
/// sequence after the entry was put in place there.
proof fn lemma_placed_behind_merged(a: Seq<EntryView>, b: Seq<EntryView>, e: EntryView)
    ensures
        placed(merged(a, b), e) == merged(a, placed(b, e)),
    decreases a.len() + b.len(),
{
    if b.len() == 0 {
        assert(placed(b, e) =~= seq![e]);
        assert(seq![e].drop_last() =~= b);
        if a.len() > 0 && !lex_le(a.last().path, e.path) {
            lemma_placed_behind_merged(a.drop_last(), b, e);
        }
    } else if a.len() == 0 {
    } else {
        let al = a.last();
        let bl = b.last();
        if lex_le(bl.path, e.path) {
            assert(b.push(e).drop_last() =~= b);
            if lex_le(al.path, e.path) {
            } else {
                if lex_le(al.path, bl.path) {
                    lemma_lex_le_transitive(al.path, bl.path, e.path);
                }
                lemma_placed_behind_merged(a.drop_last(), b, e);
                assert(merged(a, b).drop_last() =~= merged(a.drop_last(), b));
            }
        } else {
            let inner = placed(b.drop_last(), e);
            assert(inner.push(bl).drop_last() =~= inner);
            if lex_le(al.path, bl.path) {
                lemma_placed_behind_merged(a, b.drop_last(), e);
                assert(merged(a, b).drop_last() =~= merged(a, b.drop_last()));
            } else {
                if lex_le(al.path, e.path) {
                    lemma_lex_le_total(al.path, bl.path);
                    lemma_lex_le_transitive(bl.path, al.path, e.path);
                }
                lemma_placed_behind_merged(a.drop_last(), b, e);
                assert(merged(a, b).drop_last() =~= merged(a.drop_last(), b));
            }
        }
    }
}

/// Sorting two sequences and merging them sorts the one behind the other.
proof fn lemma_merged_sorts(a: Seq<EntryView>, b: Seq<EntryView>)
    ensures
        merged(by_path(a), by_path(b)) == by_path(a + b),
    decreases b.len(),
{
    if b.len() == 0 {
        assert(a + b =~= a);
    } else {
        let front = b.drop_last();
        lemma_merged_sorts(a, front);
        lemma_placed_behind_merged(by_path(a), by_path(front), b.last());
        assert((a + b).drop_last() =~= a + front);
    }
}

/// Merges two sorted vectors into one.
fn merge(a: Vec<Entry>, b: Vec<Entry>) -> (out: Vec<Entry>)
    ensures
        out.deep_view() == merged(a.deep_view(), b.deep_view()),
{
    let ghost whole = merged(a.deep_view(), b.deep_view());
    let mut a = a;
    let mut b = b;
    // the entries that come last, the last of them first
    let mut tail: Vec<Entry> = Vec::new();
    assert(merged(a.deep_view(), b.deep_view()) + tail.deep_view().reverse() =~= whole);
    while a.len() > 0 && b.len() > 0
        invariant
            merged(a.deep_view(), b.deep_view()) + tail.deep_view().reverse() == whole,
        decreases a.len() + b.len(),
    {
        let ghost before = tail.deep_view();
        let ghost av = a.deep_view();
        let ghost bv = b.deep_view();
        if path_le(&a[a.len() - 1].path, &b[b.len() - 1].path) {
            let last = b.pop().unwrap();
            assert(b.deep_view() =~= bv.drop_last());
            tail.push(last);
        } else {
            let last = a.pop().unwrap();
            assert(a.deep_view() =~= av.drop_last());
            tail.push(last);
        }
        proof {
            let inner = merged(a.deep_view(), b.deep_view());
            let last = tail.deep_view().last();
            assert(tail.deep_view() =~= before.push(last));
            assert(merged(av, bv) == inner.push(last));
            assert(before.push(last).reverse() =~= seq![last] + before.reverse());
            assert(inner + (seq![last] + before.reverse()) =~= inner.push(last)
                + before.reverse());
        }
    }
    let mut out = if a.len() > 0 {
        a
    } else {
        b
    };
    assert(out.deep_view() + tail.deep_view().reverse() == whole);
    while tail.len() > 0
        invariant
            out.deep_view() + tail.deep_view().reverse() == whole,
        decreases tail.len(),
    {
        let ghost before = tail.deep_view();
        let ghost front = out.deep_view();
        let next = tail.pop().unwrap();
        out.push(next);
        proof {
            assert(tail.deep_view() =~= before.drop_last());
            assert(out.deep_view() =~= front.push(before.last()));
            assert(before.reverse() =~= seq![before.last()] + before.drop_last().reverse());
            assert(front.push(before.last()) + before.drop_last().reverse() =~= front + (
            seq![before.last()] + before.drop_last().reverse()));
        }
    }
    assert(tail.deep_view().reverse() =~= Seq::<EntryView>::empty());
    assert(out.deep_view() + Seq::<EntryView>::empty() =~= out.deep_view());
    out
}

/// Puts entries in ascending order of their paths, compared byte by byte.
/// Entries of one path stay in the order that they had.
pub fn sort_by_path(entries: Vec<Entry>) -> (sorted: Vec<Entry>)
    ensures
        sorted.deep_view() == by_path(entries.deep_view()),
    decreases entries.len(),
{
    let ghost all = entries.deep_view();
    if entries.len() <= 1 {
        proof {
            if all.len() == 1 {
                assert(by_path(all.drop_last()) =~= Seq::<EntryView>::empty());
                assert(all =~= Seq::<EntryView>::empty().push(all.last()));
            }
        }
        return entries;
    }
    let mut left = entries;
    let right = left.split_off(left.len() / 2);
    proof {
        assert(all =~= left.deep_view() + right.deep_view());
        lemma_merged_sorts(left.deep_view(), right.deep_view());
    }
    let left = sort_by_path(left);
    let right = sort_by_path(right);
    merge(left, right)
}

/// Drops the children that could not be looked up.
fn keep(listing: Vec<Option<Entry>>) -> (entries: Vec<Entry>)
    ensures
        entries.deep_view() == kept(listing.deep_view()),
{
    let ghost all = listing.deep_view();
    let mut entries: Vec<Entry> = Vec::new();
    assert(entries.deep_view() =~= kept(all.take(0)));
    for item in it: listing
        invariant
            all == listing.deep_view(),
            entries.deep_view() == kept(all.take(it.index() as int)),
    {
        let ghost before = entries.deep_view();
        proof {
            let i = it.index() as int;
            assert(all.take(i + 1).drop_last() =~= all.take(i));
            assert(all.take(i + 1).last() == item.deep_view());
        }
        match item {
            Some(entry) => {
                entries.push(entry);
                assert(entries.deep_view() =~= before.push(entry@));
            },
            None => {},
        }
    }
    assert(all.take(listing@.len() as int) =~= all);
    entries
}

/// Arranges a listing for display: drops the children that could not be looked
/// up and puts the others in ascending order of their paths, compared byte by
/// byte. Children of one path stay in the order of the listing.
pub fn arrange(listing: Vec<Option<Entry>>) -> (entries: Vec<Entry>)
    ensures
        entries.deep_view() == arranged(listing.deep_view()),
{
    sort_by_path(keep(listing))
}

} // verus!
