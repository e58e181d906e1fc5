//! String ordering and sorting.
//!
//! Identifier lists (project IDs, target IDs) are sorted ascending by the
//! lexicographic order of their characters' code points, which is the order
//! `str` comparison gives in plain Rust.

use vstd::multiset::Multiset;
use vstd::prelude::*;
use vstd::seq_lib::lemma_multiset_commutative;
use vstd::string::StrSliceExecFns;

verus! {

/// Strict lexicographic order on character sequences, by code point.
pub open spec fn chars_lt(a: Seq<char>, b: Seq<char>) -> bool
    decreases a.len(),
{
    if b.len() == 0 {
        false
    } else if a.len() == 0 {
        true
    } else if (a[0] as u32) < (b[0] as u32) {
        true
    } else if a[0] == b[0] {
        chars_lt(a.drop_first(), b.drop_first())
    } else {
        false
    }
}

/// Reflexive lexicographic order on character sequences.
pub open spec fn chars_le(a: Seq<char>, b: Seq<char>) -> bool {
    chars_lt(a, b) || a == b
}

/// The views of a sequence of strings.
pub open spec fn str_seq(v: Seq<String>) -> Seq<Seq<char>> {
    v.map_values(|s: String| s@)
}

/// A sequence of strings in ascending order.
pub open spec fn sorted_ascending(v: Seq<Seq<char>>) -> bool {
    forall|i: int, j: int| 0 <= i < j < v.len() ==> chars_le(v[i], v[j])
}

/// The order is total: two distinct sequences compare one way or the other.
pub proof fn lemma_chars_lt_connected(a: Seq<char>, b: Seq<char>)
    requires
        a != b,
    ensures
        chars_lt(a, b) || chars_lt(b, a),
    decreases a.len(),
{
    if b.len() == 0 {
        if a.len() == 0 {
            assert(a =~= b);
        }
    } else if a.len() == 0 {
    } else if a[0] == b[0] {
        if a.drop_first() == b.drop_first() {
            assert(a.drop_first().len() == a.len() - 1);
            assert(b.drop_first().len() == b.len() - 1);
            assert(a.len() == b.len());
            assert forall|i: int| 0 <= i < a.len() implies a[i] == b[i] by {
                if i >= 1 {
                    assert(a.drop_first()[i - 1] == a[i]);
                    assert(b.drop_first()[i - 1] == b[i]);
                }
            }
            assert(a =~= b);
        }
        lemma_chars_lt_connected(a.drop_first(), b.drop_first());
    } else {
        vstd::utf8::char_u32_cast(a[0], a[0] as u32);
        vstd::utf8::char_u32_cast(b[0], b[0] as u32);
        assert((a[0] as u32) != (b[0] as u32));
    }
}

/// The strict order is transitive.
pub proof fn lemma_chars_lt_trans(a: Seq<char>, b: Seq<char>, c: Seq<char>)
    requires
        chars_lt(a, b),
        chars_lt(b, c),
    ensures
        chars_lt(a, c),
    decreases a.len(),
{
    if a.len() == 0 {
    } else {
        if a[0] == b[0] && b[0] == c[0] {
            lemma_chars_lt_trans(a.drop_first(), b.drop_first(), c.drop_first());
        }
    }
}

/// The reflexive order is transitive.
pub proof fn lemma_chars_le_trans(a: Seq<char>, b: Seq<char>, c: Seq<char>)
    requires
        chars_le(a, b),
        chars_le(b, c),
    ensures
        chars_le(a, c),
{
    if a == b || b == c {
    } else {
        lemma_chars_lt_trans(a, b, c);
    }
}

/// Comparing two sequences that agree on a prefix compares the remainders.
proof fn lemma_chars_lt_skip(a: Seq<char>, b: Seq<char>, i: int)
    requires
        0 <= i <= a.len(),
        i <= b.len(),
        forall|k: int| 0 <= k < i ==> a[k] == b[k],
    ensures
        chars_lt(a, b) == chars_lt(a.skip(i), b.skip(i)),
    decreases i,
{
    if i == 0 {
        assert(a.skip(0) =~= a);
        assert(b.skip(0) =~= b);
    } else {
        assert(a[0] == b[0]);
        assert(a.drop_first().skip(i - 1) =~= a.skip(i));
        assert(b.drop_first().skip(i - 1) =~= b.skip(i));
        lemma_chars_lt_skip(a.drop_first(), b.drop_first(), i - 1);
    }
}

/// Whether `a` comes strictly before `b` in code-point order.
pub fn str_lt(a: &str, b: &str) -> (r: bool)
    ensures
        r == chars_lt(a@, b@),
{
    let la = a.unicode_len();
    let lb = b.unicode_len();
    let mut i: usize = 0;
    while i < la && i < lb
        invariant
            i <= la,
            i <= lb,
            la == a@.len(),
            lb == b@.len(),
            forall|k: int| 0 <= k < i ==> a@[k] == b@[k],
        decreases la - i,
    {
        let ca = a.get_char(i);
        let cb = b.get_char(i);
        if (ca as u32) < (cb as u32) {
            proof {
                lemma_chars_lt_skip(a@, b@, i as int);
            }
            return true;
        }
        if (cb as u32) < (ca as u32) {
            proof {
                lemma_chars_lt_skip(a@, b@, i as int);
            }
            return false;
        }
        assert(ca == cb);
        i = i + 1;
    }
    proof {
        lemma_chars_lt_skip(a@, b@, i as int);
    }
    la < lb
}

/// Whether `a` and `b` hold the same characters.
pub fn str_eq(a: &str, b: &str) -> (r: bool)
    ensures
        r == (a@ == b@),
{
    let la = a.unicode_len();
    let lb = b.unicode_len();
    if la != lb {
        assert(a@ != b@);
        return false;
    }
    let mut i: usize = 0;
    while i < la
        invariant
            i <= la,
            la == a@.len(),
            lb == b@.len(),
            la == lb,
            forall|k: int| 0 <= k < i ==> a@[k] == b@[k],
        decreases la - i,
    {
        if a.get_char(i) != b.get_char(i) {
            assert(a@ != b@);
            return false;
        }
        i = i + 1;
    }
    assert(a@ =~= b@);
    true
}

/// Whether the string list holds `s`.
pub fn strings_contain(v: &Vec<String>, s: &str) -> (r: bool)
    ensures
        r == str_seq(v@).contains(s@),
{
    let mut i: usize = 0;
    while i < v.len()
        invariant
            i <= v.len(),
            forall|k: int| 0 <= k < i ==> str_seq(v@)[k] != s@,
        decreases v.len() - i,
    {
        if str_eq(v[i].as_str(), s) {
            assert(str_seq(v@)[i as int] == s@);
            return true;
        }
        i = i + 1;
    }
    assert(!str_seq(v@).contains(s@));
    false
}

/// Inserting an element anywhere adds exactly it to the multiset of a sequence.
proof fn lemma_insert_to_multiset(s: Seq<Seq<char>>, i: int, x: Seq<char>)
    requires
        0 <= i <= s.len(),
    ensures
        s.insert(i, x).to_multiset() == s.to_multiset().insert(x),
{
    broadcast use vstd::seq_lib::group_to_multiset_ensures;

    assert(s.insert(i, x) =~= s.take(i) + seq![x] + s.skip(i));
    lemma_multiset_commutative(s.take(i) + seq![x], s.skip(i));
    lemma_multiset_commutative(s.take(i), seq![x]);
    lemma_multiset_commutative(s.take(i), s.skip(i));
    assert(s.take(i) + s.skip(i) =~= s);
    assert(seq![x].to_multiset() =~= Multiset::empty().insert(x)) by {
        assert(seq![x].drop_first() =~= Seq::<Seq<char>>::empty());
    }
    assert(s.insert(i, x).to_multiset() =~= s.to_multiset().insert(x));
}

/// Inserting an element anywhere adds exactly it to the multiset of a
/// sequence of target values.
pub proof fn lemma_insert_view_to_multiset(
    s: Seq<crate::target::TargetView>,
    i: int,
    x: crate::target::TargetView,
)
    requires
        0 <= i <= s.len(),
    ensures
        s.insert(i, x).to_multiset() == s.to_multiset().insert(x),
{
    broadcast use vstd::seq_lib::group_to_multiset_ensures;

    assert(s.insert(i, x) =~= s.take(i) + seq![x] + s.skip(i));
    lemma_multiset_commutative(s.take(i) + seq![x], s.skip(i));
    lemma_multiset_commutative(s.take(i), seq![x]);
    lemma_multiset_commutative(s.take(i), s.skip(i));
    assert(s.take(i) + s.skip(i) =~= s);
    assert(seq![x].to_multiset() =~= Multiset::empty().insert(x)) by {
        assert(seq![x].drop_first() =~= Seq::<crate::target::TargetView>::empty());
    }
    assert(s.insert(i, x).to_multiset() =~= s.to_multiset().insert(x));
}

/// Places `x` into the sorted list `v`, keeping it sorted.
fn insert_sorted(v: &mut Vec<String>, x: String)
    requires
        sorted_ascending(str_seq(old(v)@)),
    ensures
        sorted_ascending(str_seq(final(v)@)),
        str_seq(final(v)@).to_multiset() == str_seq(old(v)@).to_multiset().insert(x@),
        final(v)@.len() == old(v)@.len() + 1,
{
    let mut p: usize = 0;
    while p < v.len() && !str_lt(x.as_str(), v[p].as_str())
        invariant
            p <= v.len(),
            v@ == old(v)@,
            forall|k: int| 0 <= k < p ==> chars_le(str_seq(v@)[k], x@),
        decreases v.len() - p,
    {
        proof {
            if str_seq(v@)[p as int] != x@ {
                lemma_chars_lt_connected(str_seq(v@)[p as int], x@);
            }
        }
        p = p + 1;
    }
    let ghost oldv = v@;
    let ghost pp = p as int;
    proof {
        lemma_insert_to_multiset(str_seq(oldv), pp, x@);
    }
    v.insert(p, x);
    proof {
        assert(str_seq(v@) =~= str_seq(oldv).insert(pp, x@));
        let s = str_seq(v@);
        let o = str_seq(oldv);
        assert forall|i: int, j: int| 0 <= i < j < s.len() implies chars_le(s[i], s[j]) by {
            if i < pp && j == pp {
                assert(s[i] == o[i] && s[j] == x@);
            } else if i == pp && j > pp {
                assert(s[i] == x@ && s[j] == o[j - 1]);
                if j - 1 > pp {
                    lemma_chars_le_trans(x@, o[pp], o[j - 1]);
                }
            } else if i < pp && j > pp {
                assert(s[i] == o[i] && s[j] == o[j - 1]);
                if i == j - 1 {
                    assert(chars_le(s[i], s[j]));
                }
            } else if j < pp {
                assert(s[i] == o[i] && s[j] == o[j]);
            } else if i > pp {
                assert(s[i] == o[i - 1] && s[j] == o[j - 1]);
            }
        }
    }
}

/// Copies a list of strings, character for character.
pub fn clone_strings(v: &Vec<String>) -> (r: Vec<String>)
    ensures
        str_seq(r@) == str_seq(v@),
        r@.len() == v@.len(),
{
    let mut out: Vec<String> = Vec::new();
    let mut i: usize = 0;
    while i < v.len()
        invariant
            i <= v.len(),
            out@.len() == i,
            forall|k: int| 0 <= k < i ==> str_seq(out@)[k] == str_seq(v@)[k],
        decreases v.len() - i,
    {
        out.push(v[i].clone());
        i = i + 1;
    }
    proof {
        assert(str_seq(out@) =~= str_seq(v@));
    }
    out
}

/// Returns the strings of `v` in ascending order.
pub fn sort_strings(v: &Vec<String>) -> (r: Vec<String>)
    ensures
        sorted_ascending(str_seq(r@)),
        str_seq(r@).to_multiset() == str_seq(v@).to_multiset(),
        r@.len() == v@.len(),
{
    let mut out: Vec<String> = Vec::new();
    proof {
        assert(v@.take(0int) =~= Seq::<String>::empty());
        assert(str_seq(out@) =~= str_seq(v@.take(0int)));
    }
    let mut i: usize = 0;
    while i < v.len()
        invariant
            i <= v.len(),
            sorted_ascending(str_seq(out@)),
            str_seq(out@).to_multiset() == str_seq(v@.take(i as int)).to_multiset(),
            out@.len() == i,
        decreases v.len() - i,
    {
        let x = v[i].clone();
        insert_sorted(&mut out, x);
        proof {
            broadcast use vstd::seq_lib::group_to_multiset_ensures;

            assert(str_seq(v@.take(i as int + 1)) =~= str_seq(v@.take(i as int)).push(
                v@[i as int]@,
            ));
        }
        i = i + 1;
    }
    proof {
        assert(v@.take(v@.len() as int) =~= v@);
    }
    out
}

} // verus!
