//! Verified arrangement of directory listings.
//!
//! The embedder reads directory entries from disk; this module orders
//! them — directories first, then by name without regard to ASCII case
//! — and caps a listing at its first two hundred entries.  It also
//! decides which directory names a completion prefix selects.

use vstd::multiset::Multiset;
use vstd::prelude::*;

use crate::state::FileNode;

verus! {

/// The code point of `c` with an upper-case ASCII letter lowered.
pub open spec fn lower_code(c: char) -> int {
    if 'A' <= c && c <= 'Z' {
        c as int + 32
    } else {
        c as int
    }
}

/// Case-insensitive lexicographic order on names.
pub open spec fn ci_lex_le(a: Seq<char>, b: Seq<char>) -> bool
    decreases a.len(),
{
    if a.len() == 0 {
        true
    } else if b.len() == 0 {
        false
    } else if lower_code(a[0]) < lower_code(b[0]) {
        true
    } else if lower_code(a[0]) > lower_code(b[0]) {
        false
    } else {
        ci_lex_le(a.drop_first(), b.drop_first())
    }
}

proof fn lemma_ci_lex_le_refl(a: Seq<char>)
    ensures
        ci_lex_le(a, a),
    decreases a.len(),
{
    if a.len() > 0 {
        lemma_ci_lex_le_refl(a.drop_first());
    }
}

proof fn lemma_node_le_refl(a: FileNode)
    ensures
        node_le(a, a),
{
    lemma_ci_lex_le_refl(a.name@);
}

proof fn lemma_ci_lex_le_total(a: Seq<char>, b: Seq<char>)
    ensures
        ci_lex_le(a, b) || ci_lex_le(b, a),
    decreases a.len(),
{
    if a.len() > 0 && b.len() > 0 && lower_code(a[0]) == lower_code(b[0]) {
        lemma_ci_lex_le_total(a.drop_first(), b.drop_first());
    }
}

proof fn lemma_ci_lex_le_trans(a: Seq<char>, b: Seq<char>, c: Seq<char>)
    requires
        ci_lex_le(a, b),
        ci_lex_le(b, c),
    ensures
        ci_lex_le(a, c),
    decreases a.len(),
{
    if a.len() > 0 {
        assert(b.len() > 0);
        assert(c.len() > 0);
        if lower_code(a[0]) == lower_code(b[0]) && lower_code(b[0]) == lower_code(c[0]) {
            lemma_ci_lex_le_trans(a.drop_first(), b.drop_first(), c.drop_first());
        }
    }
}

/// Listing order: directories before files, then names without regard
/// to ASCII case.
pub open spec fn node_le(a: FileNode, b: FileNode) -> bool {
    if a.is_dir != b.is_dir {
        a.is_dir
    } else {
        ci_lex_le(a.name@, b.name@)
    }
}

/// Every pair of entries in `s` stands in listing order.
pub open spec fn nodes_sorted(s: Seq<FileNode>) -> bool {
    forall|i: int, j: int| 0 <= i < j < s.len() ==> node_le(#[trigger] s[i], #[trigger] s[j])
}

proof fn lemma_node_le_total(a: FileNode, b: FileNode)
    ensures
        node_le(a, b) || node_le(b, a),
{
    lemma_ci_lex_le_total(a.name@, b.name@);
}

proof fn lemma_node_le_trans(a: FileNode, b: FileNode, c: FileNode)
    requires
        node_le(a, b),
        node_le(b, c),
    ensures
        node_le(a, c),
{
    if a.is_dir == b.is_dir && b.is_dir == c.is_dir {
        lemma_ci_lex_le_trans(a.name@, b.name@, c.name@);
    }
}

/// Decides the case-insensitive lexicographic order of two names.
fn ci_lex_le_exec(a: &str, b: &str) -> (r: bool)
    ensures
        r == ci_lex_le(a@, b@),
{
    let an = a.unicode_len();
    let bn = b.unicode_len();
    let mut i: usize = 0;
    proof {
        assert(a@.skip(0) =~= a@);
        assert(b@.skip(0) =~= b@);
    }
    loop
        invariant
            0 <= i,
            i <= an,
            i <= bn,
            an == a@.len(),
            bn == b@.len(),
            ci_lex_le(a@, b@) == ci_lex_le(a@.skip(i as int), b@.skip(i as int)),
        decreases an - i,
    {
        let ghost sa = a@.skip(i as int);
        let ghost sb = b@.skip(i as int);
        if i >= an {
            proof {
                assert(sa.len() == 0);
            }
            return true;
        }
        if i >= bn {
            proof {
                assert(sa.len() > 0 && sb.len() == 0);
            }
            return false;
        }
        let ca = a.get_char(i);
        let cb = b.get_char(i);
        proof {
            assert(sa[0] == a@[i as int]);
            assert(sb[0] == b@[i as int]);
            assert(sa.drop_first() =~= a@.skip(i as int + 1));
            assert(sb.drop_first() =~= b@.skip(i as int + 1));
        }
        let la = if 'A' <= ca && ca <= 'Z' {
            ca as u32 + 32
        } else {
            ca as u32
        };
        let lb = if 'A' <= cb && cb <= 'Z' {
            cb as u32 + 32
        } else {
            cb as u32
        };
        if la < lb {
            return true;
        }
        if la > lb {
            return false;
        }
        i = i + 1;
    }
}

/// Decides listing order of two entries.
fn node_le_exec(a: &FileNode, b: &FileNode) -> (r: bool)
    ensures
        r == node_le(*a, *b),
{
    if a.is_dir != b.is_dir {
        a.is_dir
    } else {
        ci_lex_le_exec(a.name.as_str(), b.name.as_str())
    }
}

/// Sorts a listing into listing order; the result holds exactly the
/// given entries.
fn sort_file_nodes(input: Vec<FileNode>) -> (r: Vec<FileNode>)
    ensures
        nodes_sorted(r@),
        r@.to_multiset() == input@.to_multiset(),
        r@.len() == input@.len(),
{
    broadcast use vstd::seq_lib::group_to_multiset_ensures;

    let ghost input0 = input@;
    let mut rest = input;
    let mut out: Vec<FileNode> = Vec::new();
    while rest.len() > 0
        invariant
            out@.len() + rest@.len() == input0.len(),
            input0.to_multiset() =~= out@.to_multiset().add(rest@.to_multiset()),
            nodes_sorted(out@),
            forall|i: int, j: int|
                0 <= i < out@.len() && 0 <= j < rest@.len() ==> node_le(
                    #[trigger] out@[i],
                    #[trigger] rest@[j],
                ),
        decreases rest@.len(),
    {
        // find a least entry of the remainder
        let mut m: usize = 0;
        let mut k: usize = 1;
        proof {
            lemma_node_le_refl(rest@[0]);
        }
        while k < rest.len()
            invariant
                0 <= m < k <= rest@.len(),
                forall|j: int| 0 <= j < k ==> node_le(rest@[m as int], #[trigger] rest@[j]),
            decreases rest@.len() - k,
        {
            if !node_le_exec(&rest[m], &rest[k]) {
                proof {
                    lemma_node_le_total(rest@[m as int], rest@[k as int]);
                    assert forall|j: int| 0 <= j < k + 1 implies node_le(
                        rest@[k as int],
                        #[trigger] rest@[j],
                    ) by {
                        if j < k {
                            lemma_node_le_trans(rest@[k as int], rest@[m as int], rest@[j]);
                        } else {
                            lemma_node_le_refl(rest@[k as int]);
                        }
                    }
                }
                m = k;
            }
            k = k + 1;
        }
        let ghost pre_rest = rest@;
        let ghost pre_out = out@;
        let x = rest.remove(m);
        out.push(x);
        proof {
            pre_out.to_multiset_ensures();
            pre_rest.to_multiset_ensures();
            assert(x == pre_rest[m as int]);
            // the multiset bookkeeping
            assert(out@ == pre_out.push(x));
            assert(pre_out.push(x).to_multiset() =~= pre_out.to_multiset().insert(x));
            assert(out@.to_multiset() =~= pre_out.to_multiset().insert(x));
            assert(rest@ == pre_rest.remove(m as int));
            assert(pre_rest.remove(m as int).to_multiset() =~= pre_rest.to_multiset().remove(x));
            assert(rest@.to_multiset() =~= pre_rest.to_multiset().remove(x));
            assert(pre_rest.to_multiset().count(x) >= 1) by {
                assert(pre_rest.contains(x));
            }
            assert(out@.to_multiset().add(rest@.to_multiset()) =~= pre_out.to_multiset().add(
                pre_rest.to_multiset(),
            ));
            // the new entry keeps the prefix sorted
            assert forall|i: int, j: int|
                0 <= i < j < out@.len() implies node_le(
                #[trigger] out@[i],
                #[trigger] out@[j],
            ) by {
                if j == out@.len() - 1 {
                    assert(out@[i] == pre_out[i]);
                    assert(node_le(pre_out[i], pre_rest[m as int]));
                }
            }
            // and stays below everything left
            assert forall|i: int, j: int|
                0 <= i < out@.len() && 0 <= j < rest@.len() implies node_le(
                #[trigger] out@[i],
                #[trigger] rest@[j],
            ) by {
                let jj = if j < m as int {
                    j
                } else {
                    j + 1
                };
                assert(rest@[j] == pre_rest[jj]);
                if i < out@.len() - 1 {
                    assert(out@[i] == pre_out[i]);
                } else {
                    assert(out@[i] == pre_rest[m as int]);
                }
            }
        }
    }
    proof {
        assert(rest@.to_multiset() =~= Multiset::<FileNode>::empty()) by {
            assert(rest@ =~= Seq::<FileNode>::empty());
        }
        assert(out@.to_multiset() =~= input0.to_multiset());
        assert(out@.to_multiset().len() == out@.len());
        assert(input0.to_multiset().len() == input0.len());
    }
    out
}

/// Arranges a directory listing: directories first, then names without
/// regard to ASCII case, capped at the first two hundred entries of
/// that order.
pub fn arrange_file_tree(entries: Vec<FileNode>) -> (r: Vec<FileNode>)
    ensures
        nodes_sorted(r@),
        r@.len() == if entries@.len() <= 200 {
            entries@.len() as int
        } else {
            200
        },
        entries@.len() <= 200 ==> r@.to_multiset() == entries@.to_multiset(),
        exists|full: Seq<FileNode>|
            {
                &&& #[trigger] nodes_sorted(full)
                &&& full.to_multiset() == entries@.to_multiset()
                &&& r@ == if full.len() <= 200 {
                    full
                } else {
                    full.subrange(0, 200)
                }
            },
{
    let ghost entries0 = entries@;
    let mut sorted = sort_file_nodes(entries);
    let ghost full = sorted@;
    if sorted.len() > 200 {
        sorted.truncate(200);
        proof {
            assert(nodes_sorted(sorted@));
        }
    }
    proof {
        assert(nodes_sorted(full) && full.to_multiset() == entries0.to_multiset() && sorted@ == (
            if full.len() <= 200 {
                full
            } else {
                full.subrange(0, 200)
            }));
    }
    sorted
}

/// Whether a directory name is offered for a completion prefix: a
/// hidden name (leading dot) only when the prefix itself is hidden, and
/// the prefix must open the name without regard to ASCII case.
pub open spec fn completion_match(name: Seq<char>, prefix: Seq<char>) -> bool {
    if name.len() > 0 && name[0] == '.' && !(prefix.len() > 0 && prefix[0] == '.') {
        false
    } else {
        prefix.len() <= name.len() && forall|i: int|
            0 <= i < prefix.len() ==> lower_code(name[i]) == lower_code(prefix[i])
    }
}

/// Decides whether a directory name is offered for a completion prefix.
pub fn completion_matches(name: &str, prefix: &str) -> (r: bool)
    ensures
        r == completion_match(name@, prefix@),
{
    let nn = name.unicode_len();
    let pn = prefix.unicode_len();
    if nn > 0 && name.get_char(0) == '.' {
        if !(pn > 0 && prefix.get_char(0) == '.') {
            return false;
        }
    }
    if pn > nn {
        return false;
    }
    let mut i: usize = 0;
    while i < pn
        invariant
            0 <= i <= pn <= nn,
            nn == name@.len(),
            pn == prefix@.len(),
            forall|j: int| 0 <= j < i ==> lower_code(name@[j]) == lower_code(prefix@[j]),
        decreases pn - i,
    {
        let cn = name.get_char(i);
        let cp = prefix.get_char(i);
        let ln = if 'A' <= cn && cn <= 'Z' {
            cn as u32 + 32
        } else {
            cn as u32
        };
        let lp = if 'A' <= cp && cp <= 'Z' {
            cp as u32 + 32
        } else {
            cp as u32
        };
        if ln != lp {
            return false;
        }
        i = i + 1;
    }
    true
}

} // verus!
