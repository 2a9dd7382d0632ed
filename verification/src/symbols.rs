//! Shared helpers over symbols (single characters) and ordered symbol lists.
use vstd::prelude::*;

verus! {

/// The empty-string marker, epsilon. It is neither a terminal nor a
/// non-terminal symbol.
pub const EMPTY_SEQUENCE: char = '\u{3b5}';

/// The reserved operator symbols that may appear inside rule variants.
pub open spec fn is_operator(c: char) -> bool {
    c == '+' || c == '-' || c == '*' || c == '/'
}

/// Executable mirror of `is_operator`.
pub fn check_operator(c: char) -> (r: bool)
    ensures
        r == is_operator(c),
{
    c == '+' || c == '-' || c == '*' || c == '/'
}

/// A strictly increasing list of symbols: sorted, with no duplicates.
pub open spec fn sorted_distinct(s: Seq<char>) -> bool {
    forall|i: int, j: int| 0 <= i < j < s.len() ==> s[i] < s[j]
}

/// A list with no repeated symbols.
pub open spec fn distinct(s: Seq<char>) -> bool {
    forall|i: int, j: int| 0 <= i < j < s.len() ==> s[i] != s[j]
}

/// A list of distinct symbols drawn from `b` is no longer than `b`.
pub proof fn lemma_distinct_subset_len(a: Seq<char>, b: Seq<char>)
    requires
        distinct(a),
        forall|k: int| 0 <= k < a.len() ==> b.contains(#[trigger] a[k]),
    ensures
        a.len() <= b.len(),
{
    broadcast use vstd::seq_lib::seq_to_set_is_finite;

    assert(a.no_duplicates());
    a.unique_seq_to_set();
    b.lemma_cardinality_of_set();
    assert forall|x: char| a.to_set().contains(x) implies b.to_set().contains(x) by {
        assert(a.contains(x));
        let k = choose|k: int| 0 <= k < a.len() && a[k] == x;
        assert(b.contains(a[k]));
    }
    assert(a.to_set().subset_of(b.to_set()));
    vstd::set_lib::lemma_len_subset(a.to_set(), b.to_set());
}

/// Two equally long duplicate-free lists over the same symbols hold exactly
/// the same symbols.
pub proof fn lemma_distinct_equal_len_same_members(a: Seq<char>, b: Seq<char>)
    requires
        distinct(a),
        distinct(b),
        forall|k: int| 0 <= k < a.len() ==> b.contains(#[trigger] a[k]),
        a.len() == b.len(),
    ensures
        forall|x: char| b.contains(x) ==> a.contains(x),
{
    broadcast use vstd::seq_lib::seq_to_set_is_finite;

    assert(a.no_duplicates());
    assert(b.no_duplicates());
    a.unique_seq_to_set();
    b.unique_seq_to_set();
    assert forall|x: char| a.to_set().contains(x) implies b.to_set().contains(x) by {
        assert(a.contains(x));
        let k = choose|k: int| 0 <= k < a.len() && a[k] == x;
        assert(b.contains(a[k]));
    }
    assert(a.to_set().subset_of(b.to_set()));
    assert forall|x: char| b.contains(x) implies a.contains(x) by {
        if !a.to_set().contains(x) {
            a.to_set().lemma_subset_not_in_lt(b.to_set(), x);
        }
    }
}

/// The members of `s` that satisfy `keep`, in order.
pub open spec fn selected_chars(s: Seq<char>, keep: spec_fn(char) -> bool) -> Seq<char>
    decreases s.len(),
{
    if s.len() == 0 {
        Seq::empty()
    } else {
        let prefix = selected_chars(s.drop_last(), keep);
        if keep(s.last()) {
            prefix.push(s.last())
        } else {
            prefix
        }
    }
}

/// Selection keeps exactly the satisfying members, regardless of
/// duplicates.
pub proof fn lemma_selected_chars_membership(s: Seq<char>, keep: spec_fn(char) -> bool)
    ensures
        forall|x: char|
            #![trigger selected_chars(s, keep).contains(x)]
            selected_chars(s, keep).contains(x) <==> (s.contains(x) && keep(x)),
        selected_chars(s, keep).len() <= s.len(),
    decreases s.len(),
{
    if s.len() > 0 {
        lemma_selected_chars_membership(s.drop_last(), keep);
        let prefix = selected_chars(s.drop_last(), keep);
        let whole = selected_chars(s, keep);
        assert forall|x: char|
            #![trigger whole.contains(x)]
            whole.contains(x) <==> (s.contains(x) && keep(x)) by {
            if whole.contains(x) {
                let k = choose|k: int| 0 <= k < whole.len() && whole[k] == x;
                if k < prefix.len() {
                    assert(prefix[k] == x);
                    assert(prefix.contains(x));
                    assert(s.drop_last().contains(x));
                    let q = choose|q: int| 0 <= q < s.drop_last().len() && s.drop_last()[q] == x;
                    assert(s[q] == x);
                    assert(s.contains(x));
                } else {
                    assert(x == s.last());
                    assert(s[s.len() - 1] == x);
                    assert(s.contains(x));
                }
            }
            if s.contains(x) && keep(x) {
                let q = choose|q: int| 0 <= q < s.len() && s[q] == x;
                if q < s.len() - 1 {
                    assert(s.drop_last()[q] == x);
                    assert(s.drop_last().contains(x));
                    assert(prefix.contains(x));
                    let k = choose|k: int| 0 <= k < prefix.len() && prefix[k] == x;
                    assert(whole[k] == x);
                    assert(whole.contains(x));
                } else {
                    assert(s.last() == x);
                    assert(whole[whole.len() - 1] == x);
                    assert(whole.contains(x));
                }
            }
        }
    }
}

/// Selection keeps exactly the satisfying members of a duplicate-free list,
/// without duplicating any.
pub proof fn lemma_selected_chars_props(s: Seq<char>, keep: spec_fn(char) -> bool)
    requires
        distinct(s),
    ensures
        distinct(selected_chars(s, keep)),
        forall|x: char|
            #![trigger selected_chars(s, keep).contains(x)]
            selected_chars(s, keep).contains(x) <==> (s.contains(x) && keep(x)),
        selected_chars(s, keep).len() <= s.len(),
    decreases s.len(),
{
    if s.len() > 0 {
        assert(distinct(s.drop_last()));
        lemma_selected_chars_props(s.drop_last(), keep);
        let prefix = selected_chars(s.drop_last(), keep);
        let whole = selected_chars(s, keep);
        assert forall|x: char| whole.contains(x) <==> (s.contains(x) && keep(x)) by {
            if whole.contains(x) {
                let k = choose|k: int| 0 <= k < whole.len() && whole[k] == x;
                if k < prefix.len() {
                    assert(prefix[k] == x);
                    assert(prefix.contains(x));
                    assert(s.drop_last().contains(x));
                    let q = choose|q: int|
                        0 <= q < s.drop_last().len() && s.drop_last()[q] == x;
                    assert(s[q] == x);
                    assert(s.contains(x));
                } else {
                    assert(x == s.last());
                    assert(s[s.len() - 1] == x);
                    assert(s.contains(x));
                }
            }
            if s.contains(x) && keep(x) {
                let q = choose|q: int| 0 <= q < s.len() && s[q] == x;
                if q < s.len() - 1 {
                    assert(s.drop_last()[q] == x);
                    assert(s.drop_last().contains(x));
                    assert(prefix.contains(x));
                    let k = choose|k: int| 0 <= k < prefix.len() && prefix[k] == x;
                    assert(whole[k] == x);
                    assert(whole.contains(x));
                } else {
                    assert(s.last() == x);
                    assert(whole[whole.len() - 1] == x);
                    assert(whole.contains(x));
                }
            }
        }
        assert(distinct(whole)) by {
            if keep(s.last()) {
                assert forall|p: int, q: int|
                    0 <= p < q < whole.len() implies whole[p] != whole[q] by {
                    if q < prefix.len() {
                        assert(whole[p] == prefix[p] && whole[q] == prefix[q]);
                    } else {
                        assert(whole[q] == s.last());
                        assert(whole[p] == prefix[p]);
                        assert(prefix.contains(prefix[p]));
                        assert(s.drop_last().contains(prefix[p]));
                        let m = choose|m: int|
                            0 <= m < s.drop_last().len() && s.drop_last()[m] == prefix[p];
                        assert(s[m] == prefix[p]);
                        assert(s[s.len() - 1] == s.last());
                    }
                }
            }
        }
    }
}

/// Whether two symbol lists are equal.
pub fn chars_eq(a: &Vec<char>, b: &Vec<char>) -> (r: bool)
    ensures
        r == (a@ == b@),
{
    if a.len() != b.len() {
        proof {
            assert(a@.len() != b@.len());
        }
        return false;
    }
    let mut i: usize = 0;
    while i < a.len()
        invariant
            0 <= i <= a@.len(),
            a@.len() == b@.len(),
            forall|k: int| 0 <= k < i ==> a@[k] == b@[k],
        decreases a@.len() - i,
    {
        if a[i] != b[i] {
            return false;
        }
        i = i + 1;
    }
    proof {
        assert(a@ =~= b@);
    }
    true
}

/// The number of capital letters in `'A'..=(char of b)..='Z'` positions from
/// `b` upward that do not occur in `s`: the pool of free state names.
pub open spec fn free_count(s: Seq<char>, b: int) -> int
    decreases 91 - b,
{
    if b < 65 || b >= 91 {
        0
    } else {
        (if s.contains(((b as u8) as char)) {
            0int
        } else {
            1int
        }) + free_count(s, b + 1)
    }
}

pub proof fn lemma_free_count_nonneg(s: Seq<char>, b: int)
    ensures
        free_count(s, b) >= 0,
    decreases 91 - b,
{
    if 65 <= b < 91 {
        lemma_free_count_nonneg(s, b + 1);
    }
}

pub proof fn lemma_free_count_le(s: Seq<char>, c: char, b: int)
    ensures
        free_count(s.push(c), b) <= free_count(s, b),
    decreases 91 - b,
{
    if 65 <= b < 91 {
        lemma_free_count_le(s, c, b + 1);
        lemma_push_contains(s, c);
    }
}

proof fn lemma_free_count_shrink_from(s: Seq<char>, c: char, b: int)
    requires
        'A' <= c && c <= 'Z',
        !s.contains(c),
        65 <= b <= c as int,
    ensures
        free_count(s.push(c), b) < free_count(s, b),
    decreases 91 - b,
{
    lemma_push_contains(s, c);
    if b == c as int {
        assert(((b as u8) as char) == c);
        assert(s.push(c).contains(c));
        lemma_free_count_le(s, c, b + 1);
    } else {
        lemma_free_count_shrink_from(s, c, b + 1);
    }
}

/// Adding a fresh capital letter to the used list strictly shrinks the pool
/// of free letter names.
pub proof fn lemma_free_letters_shrink(s: Seq<char>, c: char)
    requires
        'A' <= c && c <= 'Z',
        !s.contains(c),
    ensures
        free_count(s.push(c), 65) < free_count(s, 65),
{
    lemma_free_count_shrink_from(s, c, 65);
}

/// Membership in a list after a push.
pub proof fn lemma_push_contains(s: Seq<char>, c: char)
    ensures
        forall|x: char| s.push(c).contains(x) <==> (s.contains(x) || x == c),
{
    assert forall|x: char| s.push(c).contains(x) <==> (s.contains(x) || x == c) by {
        if s.push(c).contains(x) {
            let q = choose|q: int| 0 <= q < s.push(c).len() && s.push(c)[q] == x;
            if q < s.len() {
                assert(s[q] == x);
            }
        }
        if s.contains(x) {
            let q = choose|q: int| 0 <= q < s.len() && s[q] == x;
            assert(s.push(c)[q] == x);
        }
        if x == c {
            assert(s.push(c)[s.len() as int] == c);
        }
    }
}

/// Whether `v` holds `c`.
pub fn contains_char(v: &Vec<char>, c: char) -> (r: bool)
    ensures
        r == v@.contains(c),
{
    let mut i: usize = 0;
    while i < v.len()
        invariant
            0 <= i <= v@.len(),
            forall|k: int| 0 <= k < i ==> v@[k] != c,
        decreases v@.len() - i,
    {
        if v[i] == c {
            proof {
                assert(v@[i as int] == c);
            }
            return true;
        }
        i = i + 1;
    }
    false
}

/// Copies a list of symbols.
pub fn clone_chars(v: &Vec<char>) -> (r: Vec<char>)
    ensures
        r@ == v@,
{
    let mut r: Vec<char> = Vec::new();
    let mut i: usize = 0;
    while i < v.len()
        invariant
            0 <= i <= v@.len(),
            r@ == v@.subrange(0, i as int),
        decreases v@.len() - i,
    {
        r.push(v[i]);
        proof {
            assert(r@ =~= v@.subrange(0, i + 1 as int));
        }
        i = i + 1;
    }
    proof {
        assert(r@ =~= v@);
    }
    r
}

/// Inserts `c` into the strictly increasing list `v`, keeping it strictly
/// increasing; a symbol already present is not duplicated.
pub fn insert_sorted(v: &mut Vec<char>, c: char)
    requires
        sorted_distinct(old(v)@),
    ensures
        sorted_distinct(final(v)@),
        forall|x: char| final(v)@.contains(x) <==> (old(v)@.contains(x) || x == c),
{
    let mut i: usize = 0;
    while i < v.len() && v[i] < c
        invariant
            0 <= i <= v@.len(),
            forall|k: int| 0 <= k < i ==> v@[k] < c,
        decreases v@.len() - i,
    {
        i = i + 1;
    }
    if i < v.len() && v[i] == c {
        proof {
            assert(v@[i as int] == c);
            assert(v@.contains(c));
        }
        return;
    }
    let ghost oldv = v@;
    proof {
        assert(oldv == old(v)@);
    }
    v.insert(i, c);
    proof {
        assert(v@ == oldv.insert(i as int, c));
        assert forall|p: int, q: int| 0 <= p < q < v@.len() implies v@[p] < v@[q] by {
            if q < i {
                assert(v@[p] == oldv[p] && v@[q] == oldv[q]);
            } else if q == i {
                assert(v@[q] == c && v@[p] == oldv[p]);
            } else if p == i {
                assert(v@[p] == c && v@[q] == oldv[q - 1]);
                assert(oldv[i as int] >= c || i == oldv.len());
                if i < oldv.len() {
                    assert(oldv[i as int] != c);
                    assert(c < oldv[i as int]);
                    if q - 1 > i {
                        assert(oldv[i as int] < oldv[q - 1]);
                    }
                } else {
                    assert(false);
                }
            } else if p < i {
                assert(v@[p] == oldv[p] && v@[q] == oldv[q - 1]);
                if q - 1 == i {
                    assert(i < oldv.len());
                    assert(oldv[p] < c || p >= i);
                    assert(c < oldv[i as int]);
                } else {
                    assert(oldv[p] < oldv[q - 1]);
                }
            } else {
                assert(v@[p] == oldv[p - 1] && v@[q] == oldv[q - 1]);
                assert(oldv[p - 1] < oldv[q - 1]);
            }
        }
        assert forall|x: char| v@.contains(x) <==> (old(v)@.contains(x) || x == c) by {
            assert(oldv == old(v)@);
            if v@.contains(x) {
                let k = choose|k: int| 0 <= k < v@.len() && v@[k] == x;
                if k < i {
                    assert(oldv[k] == x);
                    assert(oldv.contains(x));
                } else if k == i {
                    assert(x == c);
                } else {
                    assert(oldv[k - 1] == x);
                    assert(oldv.contains(x));
                }
            }
            if oldv.contains(x) {
                let k = choose|k: int| 0 <= k < oldv.len() && oldv[k] == x;
                if k < i {
                    assert(v@[k] == x);
                    assert(v@.contains(x));
                } else {
                    assert(v@[k + 1] == x);
                    assert(v@.contains(x));
                }
            }
            if x == c {
                assert(v@[i as int] == c);
                assert(v@.contains(c));
            }
        }
    }
}

/// The first capital letter, `'A'` through `'Z'`, that does not occur in
/// `used`; `None` when all twenty-six are taken.
pub fn find_fresh_letter(used: &Vec<char>) -> (r: Option<char>)
    ensures
        match r {
            Some(c) => 'A' <= c && c <= 'Z' && !used@.contains(c) && (forall|d: char|
                'A' <= d && d < c ==> used@.contains(d)),
            None => forall|d: char| 'A' <= d && d <= 'Z' ==> used@.contains(d),
        },
{
    let mut b: u8 = 65;
    while b <= 90
        invariant
            65 <= b <= 91,
            forall|d: char| 'A' <= d && d < (b as char) ==> used@.contains(d),
        decreases 91 - b,
    {
        let c = b as char;
        if !contains_char(used, c) {
            return Some(c);
        }
        proof {
            assert forall|d: char| 'A' <= d && d < ((b + 1) as char) implies used@.contains(d) by {
                if d < (b as char) {
                } else {
                    assert(d == (b as char));
                }
            }
        }
        b = b + 1;
    }
    None
}

} // verus!
