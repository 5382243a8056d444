//! Rendering the list of deck names as one line of text: the names are
//! sorted lexicographically and joined with a comma separator.

use vstd::prelude::*;
use vstd::relations::{sorted_by, total_ordering};
use vstd::seq_lib::lemma_sorted_unique;

use crate::chars::{chars_of, push_char};

verus! {

/// Lexicographic order on character sequences, by code point; the
/// order in which deck names are listed.
pub open spec fn lex_le(a: Seq<char>, b: Seq<char>) -> bool
    decreases a.len(),
{
    if a.len() == 0 {
        true
    } else if b.len() == 0 {
        false
    } else if a[0] != b[0] {
        a[0] < b[0]
    } else {
        lex_le(a.drop_first(), b.drop_first())
    }
}

/// The order as a value, for `sort_by`.
pub open spec fn name_le() -> spec_fn(Seq<char>, Seq<char>) -> bool {
    |a: Seq<char>, b: Seq<char>| lex_le(a, b)
}

proof fn lemma_lex_le_refl(a: Seq<char>)
    ensures
        lex_le(a, a),
    decreases a.len(),
{
    if a.len() > 0 {
        lemma_lex_le_refl(a.drop_first());
    }
}

proof fn lemma_lex_le_connected(a: Seq<char>, b: Seq<char>)
    ensures
        lex_le(a, b) || lex_le(b, a),
    decreases a.len(),
{
    if a.len() > 0 && b.len() > 0 && a[0] == b[0] {
        lemma_lex_le_connected(a.drop_first(), b.drop_first());
    }
}

proof fn lemma_lex_le_antisym(a: Seq<char>, b: Seq<char>)
    requires
        lex_le(a, b),
        lex_le(b, a),
    ensures
        a == b,
    decreases a.len(),
{
    if a.len() == 0 {
        assert(b.len() == 0);
        assert(a =~= b);
    } else {
        assert(b.len() > 0);
        assert(a[0] == b[0]);
        lemma_lex_le_antisym(a.drop_first(), b.drop_first());
        assert(a.len() == b.len());
        assert forall|i: int| 0 <= i < a.len() implies a[i] == b[i] by {
            if i > 0 {
                assert(a[i] == a.drop_first()[i - 1]);
                assert(b[i] == b.drop_first()[i - 1]);
            }
        }
        assert(a =~= b);
    }
}

proof fn lemma_lex_le_trans(a: Seq<char>, b: Seq<char>, c: Seq<char>)
    requires
        lex_le(a, b),
        lex_le(b, c),
    ensures
        lex_le(a, c),
    decreases a.len(),
{
    if a.len() > 0 && b.len() > 0 && c.len() > 0 && a[0] == b[0] && b[0] == c[0] {
        lemma_lex_le_trans(a.drop_first(), b.drop_first(), c.drop_first());
    }
}

/// The lexicographic order is a total order, so sorting by it is
/// well-behaved and its result unique.
pub proof fn lemma_name_le_total_ordering()
    ensures
        total_ordering(name_le()),
{
    let leq = name_le();
    assert forall|x: Seq<char>| #[trigger] leq(x, x) by {
        lemma_lex_le_refl(x);
    }
    assert forall|x: Seq<char>, y: Seq<char>| #[trigger] leq(x, y) && #[trigger] leq(y, x)
        implies x == y by {
        lemma_lex_le_antisym(x, y);
    }
    assert forall|x: Seq<char>, y: Seq<char>, z: Seq<char>|
        #[trigger] leq(x, y) && #[trigger] leq(y, z) implies leq(x, z) by {
        lemma_lex_le_trans(x, y, z);
    }
    assert forall|x: Seq<char>, y: Seq<char>| #[trigger] leq(x, y) || #[trigger] leq(y, x) by {
        lemma_lex_le_connected(x, y);
    }
}

/// Equal prefixes do not decide the order: it is decided by the rest.
proof fn lemma_lex_le_skip(a: Seq<char>, b: Seq<char>, i: int)
    requires
        0 <= i <= a.len(),
        0 <= i <= b.len(),
        forall|j: int| 0 <= j < i ==> a[j] == b[j],
    ensures
        lex_le(a, b) == lex_le(a.skip(i), b.skip(i)),
    decreases i,
{
    if i > 0 {
        assert(a.len() > 0 && b.len() > 0 && a[0] == b[0]);
        assert(a.drop_first().skip(i - 1) =~= a.skip(i));
        assert(b.drop_first().skip(i - 1) =~= b.skip(i));
        lemma_lex_le_skip(a.drop_first(), b.drop_first(), i - 1);
    } else {
        assert(a.skip(0) =~= a);
        assert(b.skip(0) =~= b);
    }
}

/// Decides `lex_le` on two string slices.
pub fn str_le(a: &str, b: &str) -> (r: bool)
    ensures
        r == lex_le(a@, b@),
{
    let av = chars_of(a);
    let bv = chars_of(b);
    let la = av.len();
    let lb = bv.len();
    let mut i: usize = 0;
    loop
        invariant
            av@ == a@,
            bv@ == b@,
            la == a@.len(),
            lb == b@.len(),
            i <= la,
            i <= lb,
            forall|j: int| 0 <= j < i ==> a@[j] == b@[j],
        decreases la - i,
    {
        proof {
            lemma_lex_le_skip(a@, b@, i as int);
        }
        if i >= la {
            return true;
        }
        if i >= lb {
            return false;
        }
        let ca = av[i];
        let cb = bv[i];
        if ca != cb {
            return ca < cb;
        }
        i += 1;
    }
}

/// The names joined with a comma separator, in the given order.
pub open spec fn join_names(names: Seq<Seq<char>>) -> Seq<char>
    decreases names.len(),
{
    if names.len() == 0 {
        Seq::empty()
    } else if names.len() == 1 {
        names[0]
    } else {
        join_names(names.drop_last()) + seq![',', ' '] + names.last()
    }
}

/// Where `x` goes in the sorted list `out`: the first position whose
/// entry is not below `x`.
fn insert_pos(out: &Vec<String>, x: &str) -> (pos: usize)
    ensures
        pos <= out@.len(),
        forall|j: int| 0 <= j < pos ==> lex_le(out.deep_view()[j], x@),
        pos < out@.len() ==> !lex_le(out.deep_view()[pos as int], x@),
{
    let n = out.len();
    let mut pos: usize = 0;
    loop
        invariant
            n == out@.len(),
            pos <= n,
            forall|j: int| 0 <= j < pos ==> lex_le(out.deep_view()[j], x@),
        decreases n - pos,
    {
        if pos >= n {
            return pos;
        }
        if !str_le(out[pos].as_str(), x) {
            return pos;
        }
        pos += 1;
    }
}

/// The given names in lexicographic order.
pub fn sort_names(names: &Vec<String>) -> (r: Vec<String>)
    ensures
        r.deep_view() == names.deep_view().sort_by(name_le()),
{
    let mut out: Vec<String> = Vec::new();
    let n = names.len();
    let mut k: usize = 0;
    proof {
        assert(out.deep_view() =~= Seq::<Seq<char>>::empty());
        assert(names.deep_view().take(0) =~= Seq::<Seq<char>>::empty());
    }
    while k < n
        invariant
            n == names@.len(),
            names@.len() == names.deep_view().len(),
            k <= n,
            sorted_by(out.deep_view(), name_le()),
            out.deep_view().to_multiset() == names.deep_view().take(k as int).to_multiset(),
        decreases n - k,
    {
        let x = names[k].clone();
        let pos = insert_pos(&out, x.as_str());
        proof {
            let leq = name_le();
            let ov = out.deep_view();
            if pos < ov.len() {
                lemma_lex_le_connected(ov[pos as int], x@);
            }
            assert forall|j: int| pos <= j < ov.len() implies lex_le(x@, ov[j]) by {
                if pos as int != j {
                    assert(leq(ov[pos as int], ov[j]));
                    lemma_lex_le_trans(x@, ov[pos as int], ov[j]);
                }
            }
        }
        let ghost pre = out.deep_view();
        out.insert(pos, x);
        proof {
            let leq = name_le();
            assert(out.deep_view() =~= pre.insert(pos as int, x@));
            vstd::seq_lib::to_multiset_insert(pre, pos as int, x@);
            vstd::seq_lib::to_multiset_build(names.deep_view().take(k as int), names.deep_view()[k as int]);
            assert(names.deep_view().take(k as int).push(names.deep_view()[k as int]) =~= names.deep_view().take(
                k as int + 1,
            ));
            assert forall|i: int, j: int| 0 <= i < j < out.deep_view().len() implies #[trigger] leq(
                out.deep_view()[i],
                out.deep_view()[j],
            ) by {
                let ov = out.deep_view();
                if j < pos || (i < pos && j > pos) {
                } else if i == pos || j == pos {
                } else {
                    assert(leq(pre[i - 1], pre[j - 1]));
                }
            }
        }
        k += 1;
    }
    proof {
        assert(names.deep_view().take(n as int) =~= names.deep_view());
        lemma_name_le_total_ordering();
        names.deep_view().lemma_sort_by_ensures(name_le());
        lemma_sorted_unique(out.deep_view(), names.deep_view().sort_by(name_le()), name_le());
    }
    out
}

/// One line naming every deck: the names in lexicographic order,
/// separated by commas.
pub fn mk_names_str(deck_names: &Vec<String>) -> (r: String)
    ensures
        r@ == join_names(deck_names.deep_view().sort_by(name_le())),
{
    let sorted = sort_names(deck_names);
    let mut out = String::new();
    let n = sorted.len();
    let mut k: usize = 0;
    while k < n
        invariant
            n == sorted.deep_view().len(),
            k <= n,
            out@ == join_names(sorted.deep_view().take(k as int)),
        decreases n - k,
    {
        if k > 0 {
            push_char(&mut out, ',');
            push_char(&mut out, ' ');
        }
        let name = &sorted[k];
        out.append(name.as_str());
        proof {
            let sv = sorted.deep_view();
            assert(sv.take(k as int + 1).drop_last() =~= sv.take(k as int));
            assert(sv.take(k as int + 1).last() == sv[k as int]);
            if k == 0 {
                assert(out@ =~= join_names(sv.take(1)));
            } else {
                assert(out@ =~= join_names(sv.take(k as int)) + seq![',', ' '] + sv[k as int]);
            }
        }
        k += 1;
    }
    proof {
        assert(sorted.deep_view().take(n as int) =~= sorted.deep_view());
    }
    out
}

} // verus!
