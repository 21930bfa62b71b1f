//! Helpers for working with collections of territory names.
//!
//! Name sets are stored as `Vec<String>` with pairwise-distinct contents, and
//! army ledgers as association lists `Vec<(String, u16)>` with distinct keys.

use vstd::prelude::*;

verus! {

/// `s` holds a string whose characters are `t`.
pub open spec fn has_name(s: Seq<String>, t: Seq<char>) -> bool {
    exists|i: int| 0 <= i < s.len() && s[i]@ == t
}

/// No two strings of `s` have the same characters.
pub open spec fn distinct_names(s: Seq<String>) -> bool {
    forall|i: int, j: int| 0 <= i < j < s.len() ==> s[i]@ != s[j]@
}

/// No two entries of the association list share a key.
pub open spec fn distinct_keys(s: Seq<(String, u16)>) -> bool {
    forall|i: int, j: int| 0 <= i < j < s.len() ==> s[i].0@ != s[j].0@
}

/// The association list has an entry for key `t`.
pub open spec fn has_key(s: Seq<(String, u16)>, t: Seq<char>) -> bool {
    exists|i: int| 0 <= i < s.len() && s[i].0@ == t
}

/// The value stored under key `t`, or 0 when no entry exists. With distinct
/// keys the matching entry is unique.
pub open spec fn lookup(s: Seq<(String, u16)>, t: Seq<char>) -> u16 {
    if has_key(s, t) {
        let i = choose|i: int| 0 <= i < s.len() && s[i].0@ == t;
        s[i].1
    } else {
        0u16
    }
}

/// Character-wise string equality.
pub fn str_eq(a: &str, b: &str) -> (r: bool)
    ensures
        r == (a@ == b@),
{
    let x: String = a.to_owned();
    let y: String = b.to_owned();
    x == y
}

/// Whether `v` holds the name `t`, by linear search.
pub fn contains_name(v: &Vec<String>, t: &str) -> (r: bool)
    ensures
        r == has_name(v@, t@),
{
    let key: String = t.to_owned();
    let mut idx: usize = 0;
    while idx < v.len()
        invariant
            0 <= idx <= v@.len(),
            key@ == t@,
            forall|k: int| 0 <= k < idx ==> v@[k]@ != t@,
        decreases v@.len() - idx,
    {
        if v[idx] == key {
            return true;
        }
        idx = idx + 1;
    }
    false
}

/// The position of name `t` in `v`, if present.
pub fn find_name_index(v: &Vec<String>, t: &str) -> (r: Option<usize>)
    ensures
        r is Some ==> 0 <= r->0 < v@.len() && v@[r->0 as int]@ == t@,
        r is None ==> forall|k: int| 0 <= k < v@.len() ==> v@[k]@ != t@,
{
    let key: String = t.to_owned();
    let mut idx: usize = 0;
    while idx < v.len()
        invariant
            0 <= idx <= v@.len(),
            key@ == t@,
            forall|k: int| 0 <= k < idx ==> v@[k]@ != t@,
        decreases v@.len() - idx,
    {
        if v[idx] == key {
            return Some(idx);
        }
        idx = idx + 1;
    }
    None
}

/// The position of the entry with key `t` in `s`, if present.
pub fn find_key_index(s: &Vec<(String, u16)>, t: &str) -> (r: Option<usize>)
    ensures
        r is Some ==> 0 <= r->0 < s@.len() && s@[r->0 as int].0@ == t@,
        r is None ==> forall|k: int| 0 <= k < s@.len() ==> s@[k].0@ != t@,
{
    let key: String = t.to_owned();
    let mut idx: usize = 0;
    while idx < s.len()
        invariant
            0 <= idx <= s@.len(),
            key@ == t@,
            forall|k: int| 0 <= k < idx ==> s@[k].0@ != t@,
        decreases s@.len() - idx,
    {
        if s[idx].0 == key {
            return Some(idx);
        }
        idx = idx + 1;
    }
    None
}

/// With distinct keys, the entry at a matching index gives the looked-up
/// value.
pub proof fn lemma_lookup_at(s: Seq<(String, u16)>, t: Seq<char>, i: int)
    requires
        distinct_keys(s),
        0 <= i < s.len(),
        s[i].0@ == t,
    ensures
        has_key(s, t),
        lookup(s, t) == s[i].1,
{
    assert(has_key(s, t));
    let j = choose|j: int| 0 <= j < s.len() && s[j].0@ == t;
    assert(j == i);
}

/// A key with no entry looks up to 0.
pub proof fn lemma_lookup_absent(s: Seq<(String, u16)>, t: Seq<char>)
    requires
        forall|k: int| 0 <= k < s.len() ==> s[k].0@ != t,
    ensures
        !has_key(s, t),
        lookup(s, t) == 0,
{
}

/// Overwriting the entry at `i` with one carrying the same key changes only
/// that key's value.
pub proof fn lemma_update_entry(s: Seq<(String, u16)>, i: int, e: (String, u16))
    requires
        distinct_keys(s),
        0 <= i < s.len(),
        e.0@ == s[i].0@,
    ensures
        distinct_keys(s.update(i, e)),
        lookup(s.update(i, e), e.0@) == e.1,
        forall|x: Seq<char>| x != e.0@ ==> #[trigger] lookup(s.update(i, e), x) == lookup(s, x),
{
    let s2 = s.update(i, e);
    assert(distinct_keys(s2)) by {
        assert forall|p: int, q: int| 0 <= p < q < s2.len() implies s2[p].0@ != s2[q].0@ by {
            assert(s[p].0@ != s[q].0@);
        }
    }
    lemma_lookup_at(s2, e.0@, i);
    assert forall|x: Seq<char>| x != e.0@ implies #[trigger] lookup(s2, x) == lookup(s, x) by {
        if has_key(s, x) {
            let j = choose|j: int| 0 <= j < s.len() && s[j].0@ == x;
            assert(j != i);
            lemma_lookup_at(s, x, j);
            lemma_lookup_at(s2, x, j);
        } else {
            assert(forall|k: int| 0 <= k < s2.len() ==> s2[k].0@ != x);
            lemma_lookup_absent(s2, x);
            lemma_lookup_absent(s, x);
        }
    }
}

/// Appending an entry with a fresh key adds that key and leaves the others.
pub proof fn lemma_push_entry(s: Seq<(String, u16)>, e: (String, u16))
    requires
        distinct_keys(s),
        !has_key(s, e.0@),
    ensures
        distinct_keys(s.push(e)),
        lookup(s.push(e), e.0@) == e.1,
        forall|x: Seq<char>| x != e.0@ ==> #[trigger] lookup(s.push(e), x) == lookup(s, x),
{
    let s2 = s.push(e);
    assert(distinct_keys(s2)) by {
        assert forall|p: int, q: int| 0 <= p < q < s2.len() implies s2[p].0@ != s2[q].0@ by {
            if q < s.len() {
                assert(s[p].0@ != s[q].0@);
            } else {
                assert(s2[q] == e);
                assert(s[p].0@ != e.0@);
            }
        }
    }
    lemma_lookup_at(s2, e.0@, s.len() as int);
    assert forall|x: Seq<char>| x != e.0@ implies #[trigger] lookup(s2, x) == lookup(s, x) by {
        if has_key(s, x) {
            let j = choose|j: int| 0 <= j < s.len() && s[j].0@ == x;
            lemma_lookup_at(s, x, j);
            lemma_lookup_at(s2, x, j);
        } else {
            assert(forall|k: int| 0 <= k < s2.len() ==> s2[k].0@ != x);
            lemma_lookup_absent(s2, x);
            lemma_lookup_absent(s, x);
        }
    }
}

/// Removing the entry at `i` clears its key and leaves the others.
pub proof fn lemma_remove_entry(s: Seq<(String, u16)>, i: int)
    requires
        distinct_keys(s),
        0 <= i < s.len(),
    ensures
        distinct_keys(s.remove(i)),
        !has_key(s.remove(i), s[i].0@),
        lookup(s.remove(i), s[i].0@) == 0,
        forall|x: Seq<char>| x != s[i].0@ ==> #[trigger] lookup(s.remove(i), x) == lookup(s, x),
{
    let s2 = s.remove(i);
    assert(forall|k: int| 0 <= k < s2.len() ==> s2[k] == (if k < i {
        s[k]
    } else {
        s[k + 1]
    }));
    assert(distinct_keys(s2));
    assert(forall|k: int| 0 <= k < s2.len() ==> s2[k].0@ != s[i].0@);
    lemma_lookup_absent(s2, s[i].0@);
    assert forall|x: Seq<char>| x != s[i].0@ implies #[trigger] lookup(s2, x) == lookup(s, x) by {
        if has_key(s, x) {
            let j = choose|j: int| 0 <= j < s.len() && s[j].0@ == x;
            assert(j != i);
            lemma_lookup_at(s, x, j);
            if j < i {
                lemma_lookup_at(s2, x, j);
            } else {
                lemma_lookup_at(s2, x, j - 1);
            }
        } else {
            assert(forall|k: int| 0 <= k < s2.len() ==> s2[k].0@ != x);
            lemma_lookup_absent(s2, x);
            lemma_lookup_absent(s, x);
        }
    }
}

/// Appending a name: membership afterwards is membership before, or the new
/// name itself.
pub proof fn lemma_names_push(s: Seq<String>, e: String)
    ensures
        !has_name(s, e@) && distinct_names(s) ==> distinct_names(s.push(e)),
        forall|x: Seq<char>| #[trigger] has_name(s.push(e), x) <==> (has_name(s, x) || e@ == x),
{
    let s2 = s.push(e);
    assert forall|x: Seq<char>| #[trigger] has_name(s2, x) implies (has_name(s, x) || e@ == x) by {
        let j = choose|j: int| 0 <= j < s2.len() && s2[j]@ == x;
        if j < s.len() {
            assert(s[j]@ == x);
        }
    }
    assert forall|x: Seq<char>| (has_name(s, x) || e@ == x) implies #[trigger] has_name(s2, x) by {
        if has_name(s, x) {
            let j = choose|j: int| 0 <= j < s.len() && s[j]@ == x;
            assert(s2[j]@ == x);
        } else {
            assert(s2[s.len() as int]@ == x);
        }
    }
    if !has_name(s, e@) && distinct_names(s) {
        assert forall|p: int, q: int| 0 <= p < q < s2.len() implies s2[p]@ != s2[q]@ by {
            if q < s.len() {
                assert(s[p]@ != s[q]@);
            } else {
                assert(s2[q] == e);
            }
        }
    }
}

/// Removing the name at `i` from a duplicate-free list removes exactly that
/// name.
pub proof fn lemma_names_remove(s: Seq<String>, i: int)
    requires
        distinct_names(s),
        0 <= i < s.len(),
    ensures
        distinct_names(s.remove(i)),
        !has_name(s.remove(i), s[i]@),
        forall|x: Seq<char>| x != s[i]@ ==> (#[trigger] has_name(s.remove(i), x) <==> has_name(
            s,
            x,
        )),
{
    let s2 = s.remove(i);
    assert(forall|k: int| 0 <= k < s2.len() ==> s2[k] == (if k < i {
        s[k]
    } else {
        s[k + 1]
    }));
    assert(distinct_names(s2));
    assert(forall|k: int| 0 <= k < s2.len() ==> s2[k]@ != s[i]@);
    assert forall|x: Seq<char>| x != s[i]@ && has_name(s, x) implies #[trigger] has_name(
        s2,
        x,
    ) by {
        let j = choose|j: int| 0 <= j < s.len() && s[j]@ == x;
        assert(j != i);
        if j < i {
            assert(s2[j]@ == x);
        } else {
            assert(s2[j - 1]@ == x);
        }
    }
    assert forall|x: Seq<char>| x != s[i]@ && #[trigger] has_name(s2, x) implies has_name(
        s,
        x,
    ) by {
        let j = choose|j: int| 0 <= j < s2.len() && s2[j]@ == x;
        if j < i {
            assert(s[j]@ == x);
        } else {
            assert(s[j + 1]@ == x);
        }
    }
}

} // verus!
