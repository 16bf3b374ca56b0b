//! Laws of the engine, stated over the specification model: what a block of
//! distinct keys yields, that the last write wins, that delimiter-less lines
//! bind nothing, that a lone continuation line folds into its predecessor,
//! and that the collected field maps do not depend, as a multiset, on the
//! order in which workers take the chunk ranges.

use vstd::prelude::*;
use crate::engine::{block_maps, maps_of_ranges};
use crate::extract::{
    block_fields, fields_of, find_colon, fold_lines, is_cont_start, line_key, line_value,
};
use crate::scan::chunk_ranges;

verus! {

/// A block whose logical lines all carry a delimiter and pairwise distinct
/// trimmed keys yields a field map with exactly one entry per line, binding
/// each line's trimmed key to its trimmed value.
pub proof fn lemma_distinct_keys_fields(lines: Seq<Seq<u8>>)
    requires
        forall|i: int| 0 <= i < lines.len() ==> find_colon(#[trigger] lines[i]) >= 0,
        forall|i: int, j: int|
            0 <= i < j < lines.len() ==> line_key(lines[i]) != line_key(lines[j]),
    ensures
        fields_of(lines).dom().finite(),
        fields_of(lines).dom().len() == lines.len(),
        forall|i: int|
            0 <= i < lines.len() ==> fields_of(lines).contains_key(line_key(#[trigger] lines[i]))
                && fields_of(lines)[line_key(lines[i])] == line_value(lines[i]),
        forall|k: Seq<u8>|
            fields_of(lines).contains_key(k) ==> exists|i: int|
                0 <= i < lines.len() && line_key(#[trigger] lines[i]) == k,
    decreases lines.len(),
{
    if lines.len() > 0 {
        let t = lines.drop_last();
        let l = lines.last();
        assert(forall|i: int| 0 <= i < t.len() ==> t[i] == lines[i]);
        lemma_distinct_keys_fields(t);
        assert(!fields_of(t).contains_key(line_key(l))) by {
            if fields_of(t).contains_key(line_key(l)) {
                let i = choose|i: int| 0 <= i < t.len() && line_key(t[i]) == line_key(l);
                assert(line_key(lines[i]) != line_key(lines[lines.len() - 1]));
            }
        }
        assert(fields_of(lines).dom() =~= fields_of(t).dom().insert(line_key(l)));
        assert forall|k: Seq<u8>| fields_of(lines).contains_key(k) implies exists|i: int|
            0 <= i < lines.len() && line_key(#[trigger] lines[i]) == k by {
            if k == line_key(l) {
                assert(line_key(lines[lines.len() - 1]) == k);
            } else {
                let i = choose|i: int| 0 <= i < t.len() && line_key(t[i]) == k;
                assert(line_key(lines[i]) == k);
            }
        }
    }
}

/// A well-formed single-block input - no blank line anywhere - yields
/// exactly one field map, that of the whole content. Together with
/// `lemma_distinct_keys_fields` this pins the one map down: one entry per
/// delimited line, each trimmed key bound to its trimmed value.
pub proof fn lemma_single_block(s: Seq<u8>)
    requires
        forall|p: int| !crate::scan::is_cut(s, p),
    ensures
        block_maps(s) == seq![block_fields(s)],
{
    crate::scan::lemma_single_block_ranges(s);
    assert(s.subrange(0, s.len() as int) =~= s);
    assert(block_maps(s) =~= seq![block_fields(s)]);
}

/// When a key occurs on several lines of one block, the value of its last
/// delimited occurrence is the one the field map holds: a later line
/// overwrites an earlier one.
pub proof fn lemma_last_write_wins(lines: Seq<Seq<u8>>, i: int)
    requires
        0 <= i < lines.len(),
        find_colon(lines[i]) >= 0,
        forall|j: int|
            i < j < lines.len() ==> find_colon(#[trigger] lines[j]) < 0 || line_key(lines[j])
                != line_key(lines[i]),
    ensures
        fields_of(lines).contains_key(line_key(lines[i])),
        fields_of(lines)[line_key(lines[i])] == line_value(lines[i]),
    decreases lines.len(),
{
    if i < lines.len() - 1 {
        let t = lines.drop_last();
        assert(forall|j: int| 0 <= j < t.len() ==> t[j] == lines[j]);
        lemma_last_write_wins(t, i);
    }
}

/// A line without a delimiter binds nothing: appending it to a block leaves
/// the block's field map unchanged, and raises no error.
pub proof fn lemma_no_delimiter_no_entry(lines: Seq<Seq<u8>>, l: Seq<u8>)
    requires
        find_colon(l) < 0,
    ensures
        fields_of(lines.push(l)) == fields_of(lines),
{
    assert(lines.push(l).drop_last() =~= lines);
}

/// A continuation line directly after an ordinary line folds into it: the
/// two physical lines make one logical line with an embedded line break, the
/// continuation's leading whitespace preserved after the break.
pub proof fn lemma_continuation_folds(l1: Seq<u8>, l2: Seq<u8>)
    requires
        l1.len() > 0,
        !is_cont_start(l1),
        is_cont_start(l2),
    ensures
        fold_lines(seq![l1, l2]) == seq![l1 + seq![10u8] + l2],
{
    let both = seq![l1, l2];
    let one = seq![l1];
    assert(both.drop_last() =~= one);
    assert(both.last() == l2);
    assert(one.drop_last() =~= Seq::<Seq<u8>>::empty());
    assert(one.last() == l1);
    assert(fold_lines(Seq::<Seq<u8>>::empty()) =~= Seq::<Seq<u8>>::empty());
    assert(fold_lines(one) =~= Seq::<Seq<u8>>::empty().push(l1));
    assert(fold_lines(one) =~= one);
    assert(fold_lines(both) =~= one.update(0, l1 + seq![10u8] + l2));
    assert(fold_lines(both) =~= seq![l1 + seq![10u8] + l2]);
}

/// Two range sequences equal as multisets yield field-map sequences equal as
/// multisets: each range is parsed by content alone.
proof fn lemma_maps_of_ranges_multiset(s: Seq<u8>, o1: Seq<(int, int)>, o2: Seq<(int, int)>)
    requires
        o1.to_multiset() == o2.to_multiset(),
    ensures
        maps_of_ranges(s, o1).to_multiset() == maps_of_ranges(s, o2).to_multiset(),
    decreases o1.len(),
{
    broadcast use vstd::seq_lib::group_to_multiset_ensures, vstd::multiset::group_multiset_axioms;

    if o1.len() == 0 {
        assert(o2.len() == o2.to_multiset().len());
        assert(maps_of_ranges(s, o1) =~= Seq::<Map<Seq<u8>, Seq<u8>>>::empty());
        assert(maps_of_ranges(s, o2) =~= Seq::<Map<Seq<u8>, Seq<u8>>>::empty());
    } else {
        let x = o1.last();
        let o1p = o1.drop_last();
        assert(o1 =~= o1p.push(x));
        assert(o1p.push(x).to_multiset() =~= o1p.to_multiset().insert(x));
        assert(o1.to_multiset().count(x) > 0);
        assert(o2.to_multiset().count(x) > 0);
        assert(o2.contains(x));
        let j = choose|j: int| 0 <= j < o2.len() && o2[j] == x;
        let o2p = o2.remove(j);
        assert(o2p.to_multiset() == o2.to_multiset().remove(o2[j]));
        assert(o1p.to_multiset() =~= o1.to_multiset().remove(x)) by {
            assert(o1.to_multiset() == o1p.to_multiset().insert(x));
        }
        assert(o1p.to_multiset() == o2p.to_multiset());
        lemma_maps_of_ranges_multiset(s, o1p, o2p);
        let fx = block_fields(s.subrange(x.0, x.1));
        let m1 = maps_of_ranges(s, o1);
        let m2 = maps_of_ranges(s, o2);
        let m1p = maps_of_ranges(s, o1p);
        let m2p = maps_of_ranges(s, o2p);
        assert(m1 =~= m1p.push(fx));
        assert(m1p.push(fx).to_multiset() =~= m1p.to_multiset().insert(fx));
        assert(m2p =~= m2.remove(j));
        assert(m2.remove(j).to_multiset() == m2.to_multiset().remove(m2[j]));
        assert(m2[j] == fx);
        assert(m2.to_multiset().count(fx) > 0) by {
            assert(m2.contains(fx));
        }
        assert(m2.to_multiset().remove(fx).insert(fx) =~= m2.to_multiset());
        assert(m1.to_multiset() == m2.to_multiset());
    }
}

/// Determinism of content under concurrency: whatever order the workers take
/// the chunk ranges in - one worker or many, stealing in any interleaving -
/// the multiset of field maps they produce is that of the file's blocks.
pub proof fn lemma_order_irrelevant(s: Seq<u8>, order: Seq<(int, int)>)
    requires
        order.to_multiset() == chunk_ranges(s).to_multiset(),
    ensures
        maps_of_ranges(s, order).to_multiset() == block_maps(s).to_multiset(),
{
    lemma_maps_of_ranges_multiset(s, order, chunk_ranges(s));
}

/// Idempotence: two parses of the same content, each under its own task
/// order, yield the same multiset of field maps.
pub proof fn lemma_parse_idempotent(s: Seq<u8>, o1: Seq<(int, int)>, o2: Seq<(int, int)>)
    requires
        o1.to_multiset() == chunk_ranges(s).to_multiset(),
        o2.to_multiset() == chunk_ranges(s).to_multiset(),
    ensures
        maps_of_ranges(s, o1).to_multiset() == maps_of_ranges(s, o2).to_multiset(),
{
    lemma_maps_of_ranges_multiset(s, o1, o2);
}

} // verus!
