//! Lexicographic ordering of keys, and the sort that fixes the rendering
//! order.
//!
//! The default iteration order of a finalized table is ascending
//! lexicographic by key string (by character code point). The order is
//! enforced explicitly by sorting the keys, never left to incidental
//! storage order.

use vstd::prelude::*;

verus! {

/// Lexicographic "less than or equal" on character sequences, by code
/// point; a prefix comes before every extension of it.
pub open spec fn lex_le(a: Seq<char>, b: Seq<char>) -> bool
    decreases a.len(),
{
    if a.len() == 0 {
        true
    } else if b.len() == 0 {
        false
    } else if (a[0] as int) < (b[0] as int) {
        true
    } else if (a[0] as int) > (b[0] as int) {
        false
    } else {
        lex_le(a.drop_first(), b.drop_first())
    }
}

/// Any two keys are comparable.
pub proof fn lemma_lex_total(a: Seq<char>, b: Seq<char>)
    ensures
        lex_le(a, b) || lex_le(b, a),
    decreases a.len(),
{
    if a.len() > 0 && b.len() > 0 && a[0] == b[0] {
        lemma_lex_total(a.drop_first(), b.drop_first());
    }
}

/// The order is transitive.
pub proof fn lemma_lex_trans(a: Seq<char>, b: Seq<char>, c: Seq<char>)
    requires
        lex_le(a, b),
        lex_le(b, c),
    ensures
        lex_le(a, c),
    decreases a.len(),
{
    if a.len() > 0 && b.len() > 0 && c.len() > 0 && a[0] == b[0] && b[0] == c[0] {
        lemma_lex_trans(a.drop_first(), b.drop_first(), c.drop_first());
    }
}

/// Keys ordered both ways are equal.
pub proof fn lemma_lex_antisym(a: Seq<char>, b: Seq<char>)
    requires
        lex_le(a, b),
        lex_le(b, a),
    ensures
        a == b,
    decreases a.len(),
{
    if a.len() > 0 && b.len() > 0 && a[0] == b[0] {
        lemma_lex_antisym(a.drop_first(), b.drop_first());
        assert forall|i: int| 0 <= i < a.len() implies a[i] == b[i] by {
            if i >= 1 {
                assert(a.drop_first()[i - 1] == a[i]);
                assert(b.drop_first()[i - 1] == b[i]);
            }
        }
        assert(a =~= b);
    }
}

/// Whether a sequence of keys is in ascending lexicographic order.
pub open spec fn sorted_lex(s: Seq<Seq<char>>) -> bool {
    forall|i: int, j: int| 0 <= i < j < s.len() ==> lex_le(#[trigger] s[i], #[trigger] s[j])
}

/// A key inserted in front of the first larger element.
pub open spec fn insert_sorted(x: Seq<char>, s: Seq<Seq<char>>) -> Seq<Seq<char>>
    decreases s.len(),
{
    if s.len() == 0 {
        seq![x]
    } else if lex_le(x, s[0]) {
        seq![x] + s
    } else {
        seq![s[0]] + insert_sorted(x, s.drop_first())
    }
}

/// Keys sorted ascending, by insertion.
pub open spec fn sort_keys(s: Seq<Seq<char>>) -> Seq<Seq<char>>
    decreases s.len(),
{
    if s.len() == 0 {
        Seq::empty()
    } else {
        insert_sorted(s[0], sort_keys(s.drop_first()))
    }
}

/// Inserting into a sorted sequence places the new key at one position,
/// keeps everything else where it was, and keeps the sequence sorted.
#[verifier::rlimit(25)]
pub proof fn lemma_insert_sorted_props(x: Seq<char>, s: Seq<Seq<char>>) -> (k: int)
    requires
        sorted_lex(s),
    ensures
        0 <= k <= s.len(),
        insert_sorted(x, s) == s.subrange(0, k) + seq![x] + s.subrange(k, s.len() as int),
        sorted_lex(insert_sorted(x, s)),
    decreases s.len(),
{
    let r = insert_sorted(x, s);
    if s.len() == 0 {
        assert(r =~= s.subrange(0, 0) + seq![x] + s.subrange(0, 0));
        0
    } else if lex_le(x, s[0]) {
        assert(r =~= s.subrange(0, 0) + seq![x] + s.subrange(0, s.len() as int));
        assert forall|i: int, j: int| 0 <= i < j < r.len() implies lex_le(r[i], r[j]) by {
            if i == 0 {
                assert(r[j] == s[j - 1]);
                if j == 1 {
                    assert(lex_le(x, s[0]));
                } else {
                    assert(lex_le(s[0], s[j - 1]));
                    lemma_lex_trans(x, s[0], s[j - 1]);
                }
            } else {
                assert(r[i] == s[i - 1] && r[j] == s[j - 1]);
            }
        }
        0
    } else {
        let tail = s.drop_first();
        assert(sorted_lex(tail)) by {
            assert(forall|i: int, j: int|
                0 <= i < j < tail.len() ==> #[trigger] lex_le(tail[i], tail[j]) == lex_le(
                    s[i + 1],
                    s[j + 1],
                ));
        }
        let k = lemma_insert_sorted_props(x, tail) + 1;
        let rt = insert_sorted(x, tail);
        lemma_lex_total(x, s[0]);
        assert(r == seq![s[0]] + rt);
        assert(r =~= s.subrange(0, k) + seq![x] + s.subrange(k, s.len() as int)) by {
            assert(rt == tail.subrange(0, k - 1) + seq![x] + tail.subrange(
                k - 1,
                tail.len() as int,
            ));
            assert(forall|m: int| 0 <= m < tail.len() ==> #[trigger] tail[m] == s[m + 1]);
        }
        // Every element of the result is either at, before, or after the
        // inserted position; order follows from the order of `s` and the
        // position of `x`.
        assert forall|i: int, j: int| 0 <= i < j < r.len() implies lex_le(r[i], r[j]) by {
            if i == 0 {
                assert(r[0] == s[0]);
                if j < k {
                    assert(r[j] == s[j]);
                } else if j == k {
                    assert(r[j] == x);
                    assert(lex_le(s[0], x));
                } else {
                    assert(r[j] == s[j - 1]);
                }
            } else {
                assert(r[i] == rt[i - 1] && r[j] == rt[j - 1]);
            }
        }
        k
    }
}

/// Sorting yields an ascending sequence of the same length holding exactly
/// the original keys.
pub proof fn lemma_sort_keys_props(s: Seq<Seq<char>>)
    ensures
        sorted_lex(sort_keys(s)),
        sort_keys(s).len() == s.len(),
        forall|m: int| 0 <= m < sort_keys(s).len() ==> s.contains(#[trigger] sort_keys(s)[m]),
        forall|m: int| 0 <= m < s.len() ==> sort_keys(s).contains(#[trigger] s[m]),
    decreases s.len(),
{
    if s.len() > 0 {
        let tail = s.drop_first();
        lemma_sort_keys_props(tail);
        let k = lemma_insert_sorted_props(s[0], sort_keys(tail));
        let st = sort_keys(tail);
        let r = sort_keys(s);
        assert(r == st.subrange(0, k) + seq![s[0]] + st.subrange(k, st.len() as int));
        assert forall|m: int| 0 <= m < r.len() implies s.contains(#[trigger] r[m]) by {
            if m == k {
                assert(r[m] == s[0]);
                s.lemma_index_contains(0);
            } else {
                let p = if m < k {
                    m
                } else {
                    m - 1
                };
                assert(r[m] == st[p]);
                assert(tail.contains(sort_keys(tail)[p]));
                let q = choose|q: int| 0 <= q < tail.len() && tail[q] == st[p];
                assert(s[q + 1] == tail[q]);
                s.lemma_index_contains(q + 1);
            }
        }
        assert forall|m: int| 0 <= m < s.len() implies sort_keys(s).contains(#[trigger] s[m]) by {
            if m == 0 {
                assert(r[k] == s[0]);
                r.lemma_index_contains(k);
            } else {
                assert(s[m] == s.drop_first()[m - 1]);
                assert(sort_keys(tail).contains(tail[m - 1]));
                let p = choose|p: int| 0 <= p < st.len() && st[p] == tail[m - 1];
                if p < k {
                    assert(r[p] == st[p]);
                    r.lemma_index_contains(p);
                } else {
                    assert(r[p + 1] == st[p]);
                    r.lemma_index_contains(p + 1);
                }
            }
        }
    }
}

/// Compare two keys lexicographically by code point.
pub fn str_lex_le(a: &String, b: &String) -> (r: bool)
    ensures
        r == lex_le(a@, b@),
{
    let na = a.as_str().unicode_len();
    let nb = b.as_str().unicode_len();
    let mut i: usize = 0;
    proof {
        assert(a@.skip(0) =~= a@);
        assert(b@.skip(0) =~= b@);
    }
    loop
        invariant
            na == a@.len(),
            nb == b@.len(),
            0 <= i <= na,
            i <= nb,
            forall|j: int| 0 <= j < i as int ==> a@[j] == b@[j],
            lex_le(a@, b@) == lex_le(a@.skip(i as int), b@.skip(i as int)),
        decreases na - i,
    {
        if i == na {
            return true;
        }
        if i == nb {
            return false;
        }
        let ca = a.as_str().get_char(i) as u32;
        let cb = b.as_str().get_char(i) as u32;
        if ca < cb {
            return true;
        }
        if ca > cb {
            return false;
        }
        proof {
            assert(a@.skip(i as int).drop_first() =~= a@.skip(i + 1));
            assert(b@.skip(i as int).drop_first() =~= b@.skip(i + 1));
        }
        i = i + 1;
    }
}

/// Insert a key into an already sorted list, in front of the first larger
/// element.
fn insert_string(x: String, v: Vec<String>) -> (r: Vec<String>)
    ensures
        r.deep_view() == insert_sorted(x@, v.deep_view()),
    decreases v@.len(),
{
    let ghost xv = x@;
    let ghost vdv = v.deep_view();
    let mut v = v;
    if v.len() == 0 {
        let mut r: Vec<String> = Vec::new();
        r.push(x);
        proof {
            assert(r.deep_view() =~~= insert_sorted(xv, vdv));
        }
        r
    } else if str_lex_le(&x, &v[0]) {
        proof {
            assert(vdv[0] == v@[0]@);
        }
        v.insert(0, x);
        proof {
            assert(v.deep_view() =~~= seq![xv] + vdv);
        }
        v
    } else {
        let first = v.remove(0);
        proof {
            assert(v.deep_view() =~~= vdv.drop_first());
            assert(first@ == vdv[0]);
        }
        let mut rest = insert_string(x, v);
        rest.insert(0, first);
        proof {
            assert(rest.deep_view() =~~= seq![vdv[0]] + insert_sorted(xv, vdv.drop_first()));
        }
        rest
    }
}

/// Sort keys ascending lexicographically, from position `pos` on.
fn sort_strings_from(keys: &Vec<String>, pos: usize) -> (r: Vec<String>)
    requires
        pos <= keys@.len(),
    ensures
        r.deep_view() == sort_keys(keys.deep_view().skip(pos as int)),
    decreases keys@.len() - pos,
{
    if pos == keys.len() {
        let r: Vec<String> = Vec::new();
        proof {
            assert(r.deep_view() =~~= sort_keys(keys.deep_view().skip(pos as int)));
        }
        r
    } else {
        let rest = sort_strings_from(keys, pos + 1);
        let r = insert_string(keys[pos].clone(), rest);
        proof {
            let dv = keys.deep_view().skip(pos as int);
            assert(dv[0] == keys.deep_view()[pos as int]);
            assert(dv.drop_first() =~= keys.deep_view().skip(pos + 1));
        }
        r
    }
}

/// Sort keys ascending lexicographically by code point.
pub fn sort_strings(keys: &Vec<String>) -> (r: Vec<String>)
    ensures
        r.deep_view() == sort_keys(keys.deep_view()),
{
    proof {
        assert(keys.deep_view().skip(0) =~= keys.deep_view());
    }
    sort_strings_from(keys, 0)
}

} // verus!

