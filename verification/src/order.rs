//! Total orders used by the engine: byte-wise lexicographic order on names
//! (the order action names are listed in) and the strict order on key
//! identifiers (the canonical order of a key set).

use vstd::prelude::*;
use vstd::utf8::{encode_utf8, encode_utf8_decode_utf8};

verus! {

/// The UTF-8 bytes a name is compared by.
pub open spec fn name_bytes(s: Seq<char>) -> Seq<u8> {
    encode_utf8(s)
}

/// Byte-wise lexicographic order: `a` comes strictly before `b`.
pub open spec fn lex_lt(a: Seq<u8>, b: Seq<u8>) -> bool
    decreases a.len(),
{
    if b.len() == 0 {
        false
    } else if a.len() == 0 {
        true
    } else if a[0] < b[0] {
        true
    } else if a[0] > b[0] {
        false
    } else {
        lex_lt(a.drop_first(), b.drop_first())
    }
}

/// Two byte sequences that neither precedes are equal: the order is total.
pub proof fn lemma_lex_connex(a: Seq<u8>, b: Seq<u8>)
    ensures
        lex_lt(a, b) || lex_lt(b, a) || a == b,
    decreases a.len(),
{
    if b.len() == 0 && a.len() == 0 {
        assert(a =~= b);
    } else if b.len() == 0 || a.len() == 0 {
    } else if a[0] == b[0] {
        lemma_lex_connex(a.drop_first(), b.drop_first());
        if a.drop_first() == b.drop_first() {
            assert(a.drop_first().len() == b.drop_first().len());
            assert(a.len() == b.len());
            assert forall|k: int| 0 <= k < a.len() implies a[k] == b[k] by {
                if k >= 1 {
                    assert(a[k] == a.drop_first()[k - 1]);
                    assert(b[k] == b.drop_first()[k - 1]);
                }
            }
            assert(a =~= b);
        }
    }
}

/// The order is transitive.
pub proof fn lemma_lex_trans(a: Seq<u8>, b: Seq<u8>, c: Seq<u8>)
    requires
        lex_lt(a, b),
        lex_lt(b, c),
    ensures
        lex_lt(a, c),
    decreases a.len(),
{
    if a.len() == 0 || b.len() == 0 || c.len() == 0 {
    } else if a[0] == b[0] && b[0] == c[0] {
        lemma_lex_trans(a.drop_first(), b.drop_first(), c.drop_first());
    }
}

/// Names with equal UTF-8 bytes are equal.
pub proof fn lemma_name_bytes_injective(a: Seq<char>, b: Seq<char>)
    requires
        name_bytes(a) == name_bytes(b),
    ensures
        a == b,
{
    encode_utf8_decode_utf8(a);
    encode_utf8_decode_utf8(b);
}

/// Skipping an equal prefix does not change how two byte sequences compare.
proof fn lemma_lex_lt_skip(a: Seq<u8>, b: Seq<u8>, i: int)
    requires
        0 <= i <= a.len(),
        i <= b.len(),
        a.take(i) == b.take(i),
    ensures
        lex_lt(a, b) == lex_lt(a.skip(i), b.skip(i)),
    decreases i,
{
    if i == 0 {
        assert(a.skip(0) =~= a);
        assert(b.skip(0) =~= b);
    } else {
        assert(a.take(i)[0] == a[0]);
        assert(b.take(i)[0] == b[0]);
        assert(a[0] == b[0]);
        assert(a.drop_first().take(i - 1) =~= a.take(i).drop_first());
        assert(b.drop_first().take(i - 1) =~= b.take(i).drop_first());
        lemma_lex_lt_skip(a.drop_first(), b.drop_first(), i - 1);
        assert(a.drop_first().skip(i - 1) =~= a.skip(i));
        assert(b.drop_first().skip(i - 1) =~= b.skip(i));
    }
}

/// Decides the lexicographic order of two names by their UTF-8 bytes.
pub fn str_lt(a: &str, b: &str) -> (r: bool)
    ensures
        r == lex_lt(name_bytes(a@), name_bytes(b@)),
{
    let ab = a.as_bytes();
    let bb = b.as_bytes();
    let alen = ab.len();
    let blen = bb.len();
    let mut i: usize = 0;
    while i < alen && i < blen
        invariant
            i <= alen,
            i <= blen,
            alen == ab@.len(),
            blen == bb@.len(),
            ab@ == name_bytes(a@),
            bb@ == name_bytes(b@),
            ab@.take(i as int) == bb@.take(i as int),
        decreases alen - i,
    {
        let x = *vstd::slice::slice_index_get(ab, i);
        let y = *vstd::slice::slice_index_get(bb, i);
        if x < y {
            proof {
                lemma_lex_lt_skip(ab@, bb@, i as int);
                assert(ab@.skip(i as int)[0] == x);
                assert(bb@.skip(i as int)[0] == y);
            }
            return true;
        }
        if x > y {
            proof {
                lemma_lex_lt_skip(ab@, bb@, i as int);
                assert(ab@.skip(i as int)[0] == x);
                assert(bb@.skip(i as int)[0] == y);
            }
            return false;
        }
        proof {
            assert(ab@.take(i + 1 as int) =~= bb@.take(i + 1 as int));
        }
        i = i + 1;
    }
    proof {
        lemma_lex_lt_skip(ab@, bb@, i as int);
    }
    alen < blen
}

/// A list of names in strictly ascending byte order; so also duplicate-free.
pub open spec fn strictly_sorted_names(v: Seq<Seq<char>>) -> bool {
    forall|i: int, j: int|
        0 <= i < j < v.len() ==> lex_lt(name_bytes(v[i]), name_bytes(v[j]))
}

/// Inserts a name into a strictly sorted list, keeping it sorted and
/// duplicate-free; a name already present is left alone.
pub fn insert_name_sorted(v: &mut Vec<String>, s: &String)
    requires
        strictly_sorted_names(old(v).deep_view()),
    ensures
        strictly_sorted_names(final(v).deep_view()),
        forall|x: Seq<char>|
            final(v).deep_view().contains(x) <==> (old(v).deep_view().contains(x) || x == s@),
{
    let ghost pre = v.deep_view();
    let mut idx: usize = 0;
    while idx < v.len() && str_lt(v[idx].as_str(), s.as_str())
        invariant
            idx <= v@.len(),
            v.deep_view() == pre,
            strictly_sorted_names(pre),
            forall|k: int| 0 <= k < idx ==> lex_lt(name_bytes(pre[k]), name_bytes(s@)),
        decreases v@.len() - idx,
    {
        idx = idx + 1;
    }
    if idx < v.len() {
        let same = !str_lt(s.as_str(), v[idx].as_str());
        if same {
            proof {
                lemma_lex_connex(name_bytes(pre[idx as int]), name_bytes(s@));
                lemma_name_bytes_injective(pre[idx as int], s@);
                assert(pre.contains(s@));
            }
            return ;
        }
    }
    v.insert(idx, s.clone());
    proof {
        let post = v.deep_view();
        assert(post =~= pre.insert(idx as int, s@));
        assert forall|i: int, j: int| 0 <= i < j < post.len() implies lex_lt(
            name_bytes(post[i]),
            name_bytes(post[j]),
        ) by {
            if i == idx && j > idx {
                assert(post[j] == pre[j - 1]);
                if j - 1 > idx {
                    lemma_lex_trans(
                        name_bytes(s@),
                        name_bytes(pre[idx as int]),
                        name_bytes(pre[j - 1]),
                    );
                }
            } else if i < idx && j == idx {
                assert(post[i] == pre[i]);
            } else if i < idx && j > idx {
                assert(post[i] == pre[i]);
                assert(post[j] == pre[j - 1]);
            } else if i > idx {
                assert(post[i] == pre[i - 1]);
                assert(post[j] == pre[j - 1]);
            } else {
                assert(post[i] == pre[i]);
                assert(post[j] == pre[j]);
            }
        }
        assert forall|x: Seq<char>| post.contains(x) <==> (pre.contains(x) || x == s@) by {
            if post.contains(x) {
                let k = choose|k: int| 0 <= k < post.len() && post[k] == x;
                if k < idx {
                    assert(pre[k] == x);
                    assert(pre.contains(x));
                } else if k == idx {
                } else {
                    assert(pre[k - 1] == x);
                    assert(pre.contains(x));
                }
            }
            if pre.contains(x) {
                let k = choose|k: int| 0 <= k < pre.len() && pre[k] == x;
                if k < idx {
                    assert(post[k] == x);
                } else {
                    assert(post[k + 1] == x);
                }
                assert(post.contains(x));
            }
            if x == s@ {
                assert(post[idx as int] == x);
                assert(post.contains(x));
            }
        }
    }
}

/// A list of key identifiers in strictly ascending order: the canonical form
/// of a key set.
pub open spec fn sorted_unique(s: Seq<u16>) -> bool {
    forall|i: int, j: int| 0 <= i < j < s.len() ==> s[i] < s[j]
}

/// Inserts a key identifier into a canonical list, keeping it canonical; an
/// identifier already present is left alone.
pub fn insert_id_sorted(v: &mut Vec<u16>, id: u16)
    requires
        sorted_unique(old(v)@),
    ensures
        sorted_unique(final(v)@),
        forall|x: u16| final(v)@.contains(x) <==> (old(v)@.contains(x) || x == id),
{
    let ghost pre = v@;
    let mut idx: usize = 0;
    while idx < v.len() && v[idx] < id
        invariant
            idx <= v@.len(),
            v@ == pre,
            sorted_unique(pre),
            forall|k: int| 0 <= k < idx ==> pre[k] < id,
        decreases v@.len() - idx,
    {
        idx = idx + 1;
    }
    if idx < v.len() && v[idx] == id {
        proof {
            assert(pre.contains(id));
        }
        return ;
    }
    v.insert(idx, id);
    proof {
        let post = v@;
        assert(post =~= pre.insert(idx as int, id));
        assert forall|x: u16| post.contains(x) <==> (pre.contains(x) || x == id) by {
            if post.contains(x) {
                let k = choose|k: int| 0 <= k < post.len() && post[k] == x;
                if k < idx {
                    assert(pre[k] == x);
                    assert(pre.contains(x));
                } else if k > idx {
                    assert(pre[k - 1] == x);
                    assert(pre.contains(x));
                }
            }
            if pre.contains(x) {
                let k = choose|k: int| 0 <= k < pre.len() && pre[k] == x;
                if k < idx {
                    assert(post[k] == x);
                } else {
                    assert(post[k + 1] == x);
                }
                assert(post.contains(x));
            }
            if x == id {
                assert(post[idx as int] == x);
                assert(post.contains(x));
            }
        }
    }
}

/// A canonical key list is determined by its members: two strictly sorted
/// lists with the same members are the same list.
pub proof fn lemma_sorted_unique_equal(a: Seq<u16>, b: Seq<u16>)
    requires
        sorted_unique(a),
        sorted_unique(b),
        forall|x: u16| a.contains(x) <==> b.contains(x),
    ensures
        a == b,
    decreases a.len(),
{
    if a.len() == 0 {
        if b.len() > 0 {
            assert(b.contains(b[0]));
            assert(a.contains(b[0]));
        }
        assert(a =~= b);
    } else {
        assert(a.contains(a[0]));
        assert(b.contains(a[0]));
        let j = choose|j: int| 0 <= j < b.len() && b[j] == a[0];
        assert(b.contains(b[0]));
        assert(a.contains(b[0]));
        let i = choose|i: int| 0 <= i < a.len() && a[i] == b[0];
        assert(a[0] <= a[i]);
        assert(b[0] <= b[j]);
        assert(a[0] == b[0]);
        let at = a.drop_first();
        let bt = b.drop_first();
        assert forall|x: u16| at.contains(x) <==> bt.contains(x) by {
            if at.contains(x) {
                let k = choose|k: int| 0 <= k < at.len() && at[k] == x;
                assert(a[k + 1] == x);
                assert(a.contains(x));
                assert(a[0] < x);
                let m = choose|m: int| 0 <= m < b.len() && b[m] == x;
                assert(m > 0);
                assert(bt[m - 1] == x);
                assert(bt.contains(x));
            }
            if bt.contains(x) {
                let k = choose|k: int| 0 <= k < bt.len() && bt[k] == x;
                assert(b[k + 1] == x);
                assert(b.contains(x));
                assert(b[0] < x);
                let m = choose|m: int| 0 <= m < a.len() && a[m] == x;
                assert(m > 0);
                assert(at[m - 1] == x);
                assert(at.contains(x));
            }
        }
        lemma_sorted_unique_equal(at, bt);
        assert forall|k: int| 0 <= k < a.len() implies a[k] == b[k] by {
            if k >= 1 {
                assert(a[k] == at[k - 1]);
                assert(b[k] == bt[k - 1]);
            }
        }
        assert(a =~= b);
    }
}

} // verus!
