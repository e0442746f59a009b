//! Name ordering for directory listings: the lexicographic order on
//! names, its laws, and the sort that builds a listing in strictly
//! ascending name order.

use vstd::prelude::*;
use vstd::string::StrSliceExecFns;

use crate::structs::{DirEntry, DirEntryView};
use crate::vfs::copy_string;

verus! {

/// Lexicographic order on names, by character value.
pub open spec fn lex_lt(a: Seq<char>, b: Seq<char>) -> bool
    decreases a.len(),
{
    if b.len() == 0 {
        false
    } else if a.len() == 0 {
        true
    } else if a[0] != b[0] {
        (a[0] as u32) < (b[0] as u32)
    } else {
        lex_lt(a.drop_first(), b.drop_first())
    }
}

/// `a` comes no later than `b`.
pub open spec fn lex_le(a: Seq<char>, b: Seq<char>) -> bool {
    !lex_lt(b, a)
}

/// The order is asymmetric, so `lex_lt` implies `lex_le`.
pub proof fn lemma_lex_lt_asym(a: Seq<char>, b: Seq<char>)
    requires
        lex_lt(a, b),
    ensures
        !lex_lt(b, a),
    decreases a.len(),
{
    if b.len() == 0 {
    } else if a.len() == 0 {
    } else if a[0] != b[0] {
    } else {
        lemma_lex_lt_asym(a.drop_first(), b.drop_first());
    }
}

/// Compare two names in lexicographic order.
pub(crate) fn str_lt(a: &String, b: &String) -> (r: bool)
    ensures
        r == lex_lt(a@, b@),
{
    let na = a.as_str().unicode_len();
    let nb = b.as_str().unicode_len();
    let mut i: usize = 0;
    proof {
        assert(a@.skip(0) =~= a@);
        assert(b@.skip(0) =~= b@);
    }
    while i < na && i < nb
        invariant
            na == a@.len(),
            nb == b@.len(),
            i <= na,
            i <= nb,
            lex_lt(a@, b@) == lex_lt(a@.skip(i as int), b@.skip(i as int)),
        decreases na - i,
    {
        let ca = a.as_str().get_char(i);
        let cb = b.as_str().get_char(i);
        proof {
            assert(a@.skip(i as int)[0] == a@[i as int]);
            assert(b@.skip(i as int)[0] == b@[i as int]);
            assert(a@.skip(i as int).drop_first() =~= a@.skip(i + 1));
            assert(b@.skip(i as int).drop_first() =~= b@.skip(i + 1));
        }
        if ca != cb {
            return (ca as u32) < (cb as u32);
        }
        i = i + 1;
    }
    proof {
        if i >= na {
            assert(a@.skip(i as int).len() == 0);
        } else {
            assert(b@.skip(i as int).len() == 0);
        }
    }
    na < nb
}

/// Distinct names compare one way or the other.
pub(crate) proof fn lemma_lex_lt_total(a: Seq<char>, b: Seq<char>)
    requires
        a != b,
    ensures
        lex_lt(a, b) || lex_lt(b, a),
    decreases a.len(),
{
    if b.len() == 0 {
        if a.len() == 0 {
            assert(a =~= b);
        }
    } else if a.len() == 0 {
    } else if a[0] != b[0] {
        // Distinct characters have distinct code points.
        vstd::utf8::char_u32_cast(a[0], a[0] as u32);
        vstd::utf8::char_u32_cast(b[0], b[0] as u32);
        assert((a[0] as u32) != (b[0] as u32));
    } else {
        if a.drop_first() == b.drop_first() {
            assert(a.drop_first().len() == b.drop_first().len());
            assert(a.len() == b.len());
            assert forall|i: int| 0 <= i < a.len() implies a[i] == b[i] by {
                if i > 0 {
                    assert(a[i] == a.drop_first()[i - 1]);
                    assert(b[i] == b.drop_first()[i - 1]);
                }
            }
            assert(a =~= b);
        }
        lemma_lex_lt_total(a.drop_first(), b.drop_first());
    }
}

/// Strictness composes.
pub(crate) proof fn lemma_lex_lt_trans(a: Seq<char>, b: Seq<char>, c: Seq<char>)
    requires
        lex_lt(a, b),
        lex_lt(b, c),
    ensures
        lex_lt(a, c),
    decreases a.len() + b.len() + c.len(),
{
    if !lex_lt(a, c) {
        if a.len() == 0 {
        } else if b.len() == 0 {
        } else if c.len() == 0 {
        } else {
            if a[0] == b[0] && b[0] == c[0] {
                lemma_lex_lt_trans(a.drop_first(), b.drop_first(), c.drop_first());
            }
        }
    }
}

/// Sort directory entries into strictly ascending name order, keeping
/// one entry per name: every kept entry is one of the given ones (so any
/// property of all the given entries carries over), and every given name
/// appears.
#[verifier::rlimit(100)]
#[verifier::spinoff_prover]
pub(crate) fn sort_entries(
    v: Vec<DirEntry>,
    Ghost(pred): Ghost<spec_fn(DirEntryView) -> bool>,
) -> (r: Vec<DirEntry>)
    requires
        forall|w: int| 0 <= w < v@.len() ==> pred((#[trigger] v@[w])@),
    ensures
        forall|j: int| 0 <= j < r@.len() ==> pred((#[trigger] r@[j])@),
        forall|w: int|
            #![trigger v@[w]]
            0 <= w < v@.len() ==> exists|j: int|
                #![auto]
                0 <= j < r@.len() && r@[j]@.name == v@[w]@.name,
        forall|j: int, k: int|
            #![trigger r@[j], r@[k]]
            0 <= j < k < r@.len() ==> lex_lt(r@[j]@.name, r@[k]@.name),
{
    let mut sorted: Vec<DirEntry> = Vec::new();
    let mut i2: usize = 0;
    while i2 < v.len()
        invariant
            i2 <= v@.len(),
            forall|w: int| 0 <= w < v@.len() ==> pred((#[trigger] v@[w])@),
            forall|j: int| 0 <= j < sorted@.len() ==> pred((#[trigger] sorted@[j])@),
            forall|w: int|
                #![trigger v@[w]]
                0 <= w < i2 ==> exists|j: int|
                    #![auto]
                    0 <= j < sorted@.len() && sorted@[j]@.name == v@[w]@.name,
            forall|j: int, k: int|
                #![trigger sorted@[j], sorted@[k]]
                0 <= j < k < sorted@.len() ==> lex_lt(sorted@[j]@.name, sorted@[k]@.name),
        decreases v@.len() - i2,
    {
        let item = &v[i2];
        let entry = DirEntry {
            parent: item.parent,
            inode: item.inode,
            name: copy_string(&item.name),
            kind: item.kind,
        };
        proof {
            assert(entry@ == v@[i2 as int]@);
        }
        let mut p: usize = 0;
        let mut duplicate = false;
        while p < sorted.len() && !duplicate && !str_lt(&entry.name, &sorted[p].name)
            invariant
                p <= sorted@.len(),
                !duplicate ==> forall|j: int|
                    0 <= j < p ==> !lex_lt(entry@.name, (#[trigger] sorted@[j])@.name)
                        && entry@.name != sorted@[j]@.name,
                duplicate ==> p < sorted@.len() && entry@.name == sorted@[p as int]@.name,
            decreases sorted@.len() - p + (if duplicate {
                0int
            } else {
                1int
            }),
        {
            if entry.name == sorted[p].name {
                duplicate = true;
            } else {
                p = p + 1;
            }
        }
        if duplicate {
            // The name is already listed; keep the earlier entry.
            i2 = i2 + 1;
            continue ;
        }
        proof {
            assert forall|j: int| 0 <= j < p implies lex_lt(
                (#[trigger] sorted@[j])@.name,
                entry@.name,
            ) by {
                lemma_lex_lt_total(entry@.name, sorted@[j]@.name);
            }
            if p < sorted@.len() {
                assert forall|k: int| p <= k < sorted@.len() implies lex_lt(
                    entry@.name,
                    (#[trigger] sorted@[k])@.name,
                ) by {
                    if k > p {
                        assert(lex_lt(sorted@[p as int]@.name, sorted@[k]@.name));
                        lemma_lex_lt_trans(
                            entry@.name,
                            sorted@[p as int]@.name,
                            sorted@[k]@.name,
                        );
                    }
                }
            }
        }
        let ghost pre_sorted = sorted@;
        sorted.insert(p, entry);
        proof {
            assert(sorted@ =~= pre_sorted.take(p as int) + seq![entry] + pre_sorted.skip(
                p as int,
            ));
            assert forall|j: int| 0 <= j < sorted@.len() implies pred(
                (#[trigger] sorted@[j])@,
            ) && (j != p ==> sorted@[j] == pre_sorted[if j < p {
                j
            } else {
                j - 1
            }]) by {
                if j == p {
                    assert(sorted@[j]@ == v@[i2 as int]@);
                }
            }
            assert forall|w: int|
                #![trigger v@[w]]
                0 <= w < i2 + 1 implies exists|j: int|
                #![auto]
                0 <= j < sorted@.len() && sorted@[j]@.name == v@[w]@.name by {
                if w == i2 {
                    assert(sorted@[p as int]@.name == v@[w]@.name);
                } else {
                    let j0 = choose|j0: int|
                        #![auto]
                        0 <= j0 < pre_sorted.len() && pre_sorted[j0]@.name == v@[w]@.name;
                    if j0 < p {
                        assert(sorted@[j0]@.name == v@[w]@.name);
                    } else {
                        assert(sorted@[j0 + 1]@.name == v@[w]@.name);
                    }
                }
            }
            assert forall|j: int, k: int|
                #![trigger sorted@[j], sorted@[k]]
                0 <= j < k < sorted@.len() implies lex_lt(sorted@[j]@.name, sorted@[k]@.name) by {
                if j == p {
                    assert(sorted@[k] == pre_sorted[k - 1]);
                } else if k == p {
                    assert(sorted@[j] == pre_sorted[j]);
                } else if j < p && k > p {
                    assert(sorted@[j] == pre_sorted[j]);
                    assert(sorted@[k] == pre_sorted[k - 1]);
                    assert(lex_lt(pre_sorted[j]@.name, entry@.name));
                    assert(lex_lt(entry@.name, pre_sorted[k - 1]@.name));
                    lemma_lex_lt_trans(
                        pre_sorted[j]@.name,
                        entry@.name,
                        pre_sorted[k - 1]@.name,
                    );
                }
            }
        }
        i2 = i2 + 1;
    }
    sorted
}

} // verus!
