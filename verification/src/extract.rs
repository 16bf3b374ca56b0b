//! The field extractor: splits one chunk into physical lines, folds
//! continuation lines (those opening with a space or tab) into the preceding
//! logical line, and parses each logical line at its first `:` into a trimmed
//! key and value.

use vstd::prelude::*;
use crate::bytes::{trim, trim_bytes};
use crate::fields::FieldMap;

verus! {

/// The views of a sequence of byte vectors.
pub open spec fn seq_views(v: Seq<Vec<u8>>) -> Seq<Seq<u8>> {
    v.map_values(|x: Vec<u8>| x@)
}

/// The state of a left-to-right split of `s` on line breaks: the physical
/// lines completed so far, and the line still open.
pub open spec fn split_state(s: Seq<u8>) -> (Seq<Seq<u8>>, Seq<u8>)
    decreases s.len(),
{
    if s.len() == 0 {
        (Seq::empty(), Seq::empty())
    } else {
        let prev = split_state(s.drop_last());
        if crate::is_line_break(s.last()) {
            (prev.0.push(prev.1), Seq::empty())
        } else {
            (prev.0, prev.1.push(s.last()))
        }
    }
}

/// The physical lines of a chunk: the segments between line breaks, the
/// segment after the last break included.
pub open spec fn split_lines(s: Seq<u8>) -> Seq<Seq<u8>> {
    split_state(s).0.push(split_state(s).1)
}

/// A continuation line: it opens with a space or a tab.
pub open spec fn is_cont_start(l: Seq<u8>) -> bool {
    l.len() > 0 && (l[0] == 32u8 || l[0] == 9u8)
}

/// Folds physical lines into logical lines: empty lines are dropped; a
/// continuation line is appended, behind a line break, to the previous
/// logical line; a continuation line with no predecessor is dropped.
pub open spec fn fold_lines(lines: Seq<Seq<u8>>) -> Seq<Seq<u8>>
    decreases lines.len(),
{
    if lines.len() == 0 {
        Seq::empty()
    } else {
        let acc = fold_lines(lines.drop_last());
        let l = lines.last();
        if l.len() == 0 {
            acc
        } else if is_cont_start(l) && acc.len() > 0 {
            acc.update(acc.len() - 1, acc.last() + seq![10u8] + l)
        } else if is_cont_start(l) {
            acc
        } else {
            acc.push(l)
        }
    }
}

/// The logical lines of one chunk.
pub open spec fn logical_lines(chunk: Seq<u8>) -> Seq<Seq<u8>> {
    fold_lines(split_lines(chunk))
}

/// The position of the first `:` byte, or -1 when there is none.
pub open spec fn find_colon(l: Seq<u8>) -> int
    decreases l.len(),
{
    if l.len() == 0 {
        -1
    } else if l[0] == 58u8 {
        0
    } else {
        let r = find_colon(l.drop_first());
        if r < 0 {
            -1
        } else {
            r + 1
        }
    }
}

/// `find_colon` names the first `:` byte exactly.
pub proof fn lemma_find_colon(l: Seq<u8>)
    ensures
        find_colon(l) < 0 ==> forall|j: int| 0 <= j < l.len() ==> l[j] != 58u8,
        find_colon(l) >= 0 ==> find_colon(l) < l.len() && l[find_colon(l)] == 58u8 && forall|j: int|
            0 <= j < find_colon(l) ==> l[j] != 58u8,
    decreases l.len(),
{
    if l.len() > 0 && l[0] != 58u8 {
        let t = l.drop_first();
        lemma_find_colon(t);
        assert(forall|j: int| 0 <= j < t.len() ==> t[j] == l[j + 1]);
        if find_colon(l) < 0 {
            assert forall|j: int| 0 <= j < l.len() implies l[j] != 58u8 by {
                if j > 0 {
                    assert(t[j - 1] != 58u8);
                }
            }
        } else {
            assert forall|j: int| 0 <= j < find_colon(l) implies l[j] != 58u8 by {
                if j > 0 {
                    assert(t[j - 1] != 58u8);
                }
            }
        }
    }
}

/// The key of a logical line with a delimiter: the text before the first `:`,
/// trimmed.
pub open spec fn line_key(l: Seq<u8>) -> Seq<u8> {
    trim(l.subrange(0, find_colon(l)))
}

/// The value of a logical line with a delimiter: the text after the first
/// `:`, the delimiter itself stripped, trimmed.
pub open spec fn line_value(l: Seq<u8>) -> Seq<u8> {
    trim(l.subrange(find_colon(l) + 1, l.len() as int))
}

/// The field map of a sequence of logical lines: each line with a `:` binds
/// its trimmed key to its trimmed value, later lines overwriting earlier
/// ones; a line without `:` binds nothing.
pub open spec fn fields_of(lines: Seq<Seq<u8>>) -> Map<Seq<u8>, Seq<u8>>
    decreases lines.len(),
{
    if lines.len() == 0 {
        Map::empty()
    } else {
        let m = fields_of(lines.drop_last());
        let l = lines.last();
        if find_colon(l) < 0 {
            m
        } else {
            m.insert(line_key(l), line_value(l))
        }
    }
}

/// The field map of one raw chunk.
pub open spec fn block_fields(chunk: Seq<u8>) -> Map<Seq<u8>, Seq<u8>> {
    fields_of(logical_lines(chunk))
}

/// Appends all bytes of `src` to `dst`.
fn append_bytes(dst: &mut Vec<u8>, src: &[u8])
    ensures
        final(dst)@ == old(dst)@ + src@,
{
    let mut i: usize = 0;
    proof {
        assert(dst@ =~= dst@ + src@.subrange(0, 0));
    }
    while i < src.len()
        invariant
            i <= src@.len(),
            dst@ == old(dst)@ + src@.subrange(0, i as int),
        decreases src@.len() - i,
    {
        dst.push(src[i]);
        proof {
            assert(old(dst)@ + src@.subrange(0, i + 1) =~= (old(dst)@ + src@.subrange(
                0,
                i as int,
            )).push(src@[i as int]));
        }
        i += 1;
    }
    proof {
        assert(src@.subrange(0, src@.len() as int) =~= src@);
    }
}

/// Splits a chunk into its physical lines.
fn split_chunk(chunk: &[u8]) -> (r: Vec<Vec<u8>>)
    ensures
        seq_views(r@) == split_lines(chunk@),
{
    let mut done: Vec<Vec<u8>> = Vec::new();
    let mut cur: Vec<u8> = Vec::new();
    let mut i: usize = 0;
    proof {
        assert(chunk@.subrange(0, 0) =~= Seq::<u8>::empty());
        assert(seq_views(done@) =~= Seq::<Seq<u8>>::empty());
    }
    while i < chunk.len()
        invariant
            i <= chunk@.len(),
            seq_views(done@) == split_state(chunk@.subrange(0, i as int)).0,
            cur@ == split_state(chunk@.subrange(0, i as int)).1,
        decreases chunk@.len() - i,
    {
        proof {
            let pre = chunk@.subrange(0, i as int);
            let post = chunk@.subrange(0, i + 1);
            assert(post.drop_last() =~= pre);
            assert(post.last() == chunk@[i as int]);
        }
        if chunk[i] == 10 {
            let ghost pre_done = done@;
            let ghost pre_cur = cur@;
            done.push(cur);
            cur = Vec::new();
            proof {
                assert(seq_views(done@) =~= seq_views(pre_done).push(pre_cur));
            }
        } else {
            cur.push(chunk[i]);
        }
        i += 1;
    }
    proof {
        assert(chunk@.subrange(0, chunk@.len() as int) =~= chunk@);
    }
    let ghost pre_done = done@;
    let ghost pre_cur = cur@;
    done.push(cur);
    proof {
        assert(seq_views(done@) =~= seq_views(pre_done).push(pre_cur));
    }
    done
}

/// Converts a raw chunk into its logical lines, folding continuation lines
/// into their predecessor with an embedded line break.
pub fn parse_chunk(chunk: &[u8]) -> (r: Vec<Vec<u8>>)
    ensures
        seq_views(r@) == logical_lines(chunk@),
{
    let phys = split_chunk(chunk);
    let n = phys.len();
    let mut acc: Vec<Vec<u8>> = Vec::new();
    let mut i: usize = 0;
    proof {
        assert(seq_views(phys@).subrange(0, 0) =~= Seq::<Seq<u8>>::empty());
        assert(seq_views(acc@) =~= Seq::<Seq<u8>>::empty());
    }
    while i < n
        invariant
            i <= n,
            n == phys@.len(),
            seq_views(acc@) == fold_lines(seq_views(phys@).subrange(0, i as int)),
        decreases n - i,
    {
        proof {
            let pre = seq_views(phys@).subrange(0, i as int);
            let post = seq_views(phys@).subrange(0, i + 1);
            assert(post.drop_last() =~= pre);
            assert(post.last() == phys@[i as int]@);
        }
        if phys[i].len() == 0 {
            // an empty physical line separates nothing inside one chunk
        } else if phys[i][0] == 32 || phys[i][0] == 9 {
            if acc.len() > 0 {
                let ghost pre_acc = acc@;
                let mut joined = match acc.pop() {
                    Some(prev) => prev,
                    None => Vec::new(),
                };
                joined.push(10);
                append_bytes(&mut joined, phys[i].as_slice());
                acc.push(joined);
                proof {
                    assert(joined@ =~= pre_acc.last()@ + seq![10u8] + phys@[i as int]@);
                    assert(seq_views(acc@) =~~= seq_views(pre_acc).update(
                        pre_acc.len() - 1,
                        pre_acc.last()@ + seq![10u8] + phys@[i as int]@,
                    ));
                }
            }
            // else: a continuation line opening the chunk has no predecessor
            // to fold into and is dropped
        } else {
            let ghost pre_acc = acc@;
            acc.push(vstd::slice::slice_to_vec(phys[i].as_slice()));
            proof {
                assert(seq_views(acc@) =~= seq_views(pre_acc).push(phys@[i as int]@));
            }
        }
        i += 1;
    }
    proof {
        assert(seq_views(phys@).subrange(0, n as int) =~= seq_views(phys@));
    }
    acc
}

/// Finds the first `:` byte of a line.
fn find_delim(l: &[u8]) -> (r: Option<usize>)
    ensures
        match r {
            Some(d) => d as int == find_colon(l@),
            None => find_colon(l@) < 0,
        },
{
    proof {
        lemma_find_colon(l@);
    }
    let mut i: usize = 0;
    while i < l.len()
        invariant
            i <= l@.len(),
            forall|j: int| 0 <= j < i ==> l@[j] != 58u8,
        decreases l@.len() - i,
    {
        if l[i] == 58 {
            proof {
                if find_colon(l@) < 0 {
                    assert(l@[i as int] != 58u8);
                }
                if find_colon(l@) < i {
                    assert(l@[find_colon(l@)] != 58u8);
                }
                if find_colon(l@) > i {
                    assert(l@[i as int] != 58u8);
                }
            }
            return Some(i);
        }
        i += 1;
    }
    proof {
        if find_colon(l@) >= 0 {
            assert(l@[find_colon(l@)] != 58u8);
        }
    }
    None
}

/// Parses logical lines into a field map: each line is split at its first
/// `:` into a trimmed key and value, a later line overwriting an earlier one
/// with the same key; a line without `:` is skipped.
pub fn parse_fields(lines: Vec<Vec<u8>>) -> (r: FieldMap)
    ensures
        r.wf(),
        r@ == fields_of(seq_views(lines@)),
{
    let n = lines.len();
    let mut fm = FieldMap::new();
    let mut i: usize = 0;
    proof {
        assert(seq_views(lines@).subrange(0, 0) =~= Seq::<Seq<u8>>::empty());
    }
    while i < n
        invariant
            i <= n,
            n == lines@.len(),
            fm.wf(),
            fm@ == fields_of(seq_views(lines@).subrange(0, i as int)),
        decreases n - i,
    {
        proof {
            let pre = seq_views(lines@).subrange(0, i as int);
            let post = seq_views(lines@).subrange(0, i + 1);
            assert(post.drop_last() =~= pre);
            assert(post.last() == lines@[i as int]@);
        }
        let line = lines[i].as_slice();
        match find_delim(line) {
            Some(d) => {
                proof {
                    lemma_find_colon(line@);
                }
                let key = trim_bytes(vstd::slice::slice_subrange(line, 0, d));
                let value = trim_bytes(vstd::slice::slice_subrange(line, d + 1, line.len()));
                proof {
                    assert(key@ == line_key(lines@[i as int]@));
                    assert(value@ == line_value(lines@[i as int]@));
                }
                fm.insert(key, value);
            },
            None => {},
        }
        i += 1;
    }
    proof {
        assert(seq_views(lines@).subrange(0, n as int) =~= seq_views(lines@));
    }
    fm
}

} // verus!
