//! First-match search over sequences, and the association lists the model
//! keeps its small maps in.
use vstd::prelude::*;

verus! {

/// The first element of `s` satisfying `p`.
pub closed spec fn find<A>(s: Seq<A>, p: spec_fn(A) -> bool) -> Option<A> {
    if exists|i: int| 0 <= i < s.len() && p(s[i]) {
        let i = choose|i: int|
            0 <= i < s.len() && p(s[i]) && forall|j: int| 0 <= j < i ==> !p(#[trigger] s[j]);
        Some(s[i])
    } else {
        None
    }
}

/// The index of the first element of `s` satisfying `p`, or -1.
pub closed spec fn find_index<A>(s: Seq<A>, p: spec_fn(A) -> bool) -> int {
    if exists|i: int| 0 <= i < s.len() && p(s[i]) {
        choose|i: int|
            0 <= i < s.len() && p(s[i]) && forall|j: int| 0 <= j < i ==> !p(#[trigger] s[j])
    } else {
        -1
    }
}

/// Whether some element of `s` satisfies `p`.
pub closed spec fn any<A>(s: Seq<A>, p: spec_fn(A) -> bool) -> bool {
    exists|i: int| 0 <= i < s.len() && p(#[trigger] s[i])
}

/// The element at `i` is the first one satisfying `p`.
pub proof fn lemma_find_at<A>(s: Seq<A>, p: spec_fn(A) -> bool, i: int)
    requires
        0 <= i < s.len(),
        p(s[i]),
        forall|j: int| 0 <= j < i ==> !p(#[trigger] s[j]),
    ensures
        find(s, p) == Some(s[i]),
        find_index(s, p) == i,
{
    assert(exists|k: int| 0 <= k < s.len() && p(s[k]));
    let k = choose|k: int|
        0 <= k < s.len() && p(s[k]) && forall|j: int| 0 <= j < k ==> !p(#[trigger] s[j]);
    assert(0 <= k < s.len() && p(s[k]) && forall|j: int| 0 <= j < k ==> !p(#[trigger] s[j]));
    if k < i {
        assert(!p(s[k]));
    }
    if i < k {
        assert(!p(s[i]));
    }
    assert(k == i);
}

/// An element satisfying `p` makes `any` true.
pub proof fn lemma_any_at<A>(s: Seq<A>, p: spec_fn(A) -> bool, i: int)
    requires
        0 <= i < s.len(),
        p(s[i]),
    ensures
        any(s, p),
{
}

/// `find` succeeds exactly when some element satisfies `p`.
pub proof fn lemma_find_iff<A>(s: Seq<A>, p: spec_fn(A) -> bool)
    ensures
        find(s, p) is Some <==> any(s, p),
        find_index(s, p) >= 0 <==> any(s, p),
{
    if any(s, p) {
        lemma_find_some(s, p);
    }
}

/// When `any` is false, no element satisfies `p`.
pub proof fn lemma_not_any<A>(s: Seq<A>, p: spec_fn(A) -> bool)
    requires
        !any(s, p),
    ensures
        forall|j: int| 0 <= j < s.len() ==> !p(#[trigger] s[j]),
{
}

/// No element satisfies `p`.
pub proof fn lemma_find_none<A>(s: Seq<A>, p: spec_fn(A) -> bool)
    requires
        forall|j: int| 0 <= j < s.len() ==> !p(#[trigger] s[j]),
    ensures
        find(s, p) is None,
        find_index(s, p) == -1,
        !any(s, p),
{
}

/// `find` returns an element satisfying `p`, found at `find_index`.
pub proof fn lemma_find_some<A>(s: Seq<A>, p: spec_fn(A) -> bool)
    requires
        any(s, p),
    ensures
        find(s, p) is Some,
        0 <= find_index(s, p) < s.len(),
        find(s, p) == Some(s[find_index(s, p)]),
        p(s[find_index(s, p)]),
        forall|j: int| 0 <= j < find_index(s, p) ==> !p(#[trigger] s[j]),
{
    let w = choose|i: int| 0 <= i < s.len() && p(#[trigger] s[i]);
    // the least witness exists
    lemma_least_witness(s, p, w);
}

proof fn lemma_least_witness<A>(s: Seq<A>, p: spec_fn(A) -> bool, w: int)
    requires
        0 <= w < s.len(),
        p(s[w]),
    ensures
        exists|i: int|
            0 <= i < s.len() && p(s[i]) && forall|j: int| 0 <= j < i ==> !p(#[trigger] s[j]),
    decreases w,
{
    if exists|j: int| 0 <= j < w && p(#[trigger] s[j]) {
        let j = choose|j: int| 0 <= j < w && p(#[trigger] s[j]);
        lemma_least_witness(s, p, j);
    } else {
        assert(forall|j: int| 0 <= j < w ==> !p(#[trigger] s[j]));
    }
}

/// The entry is keyed by `k`.
pub open spec fn key_usize<V>(k: usize) -> spec_fn((usize, V)) -> bool {
    |e: (usize, V)| e.0 == k
}

/// The entry is keyed by `k`.
pub open spec fn key_u32<V>(k: u32) -> spec_fn((u32, V)) -> bool {
    |e: (u32, V)| e.0 == k
}

/// The entry is keyed by the string whose text is `k`.
pub open spec fn key_str<V>(k: Seq<char>) -> spec_fn((String, V)) -> bool {
    |e: (String, V)| e.0@ == k
}

/// The value stored under `k` in an association list keyed by `usize`.
pub open spec fn lookup_usize<V>(s: Seq<(usize, V)>, k: usize) -> Option<V> {
    match find(s, key_usize::<V>(k)) {
        Some(e) => Some(e.1),
        None => None,
    }
}

/// The value stored under `k` in an association list keyed by `u32`.
pub open spec fn lookup_u32<V>(s: Seq<(u32, V)>, k: u32) -> Option<V> {
    match find(s, key_u32::<V>(k)) {
        Some(e) => Some(e.1),
        None => None,
    }
}

/// The value stored under the key whose text is `k` in an association
/// list keyed by strings.
pub open spec fn lookup_str<V>(s: Seq<(String, V)>, k: Seq<char>) -> Option<V> {
    match find(s, key_str::<V>(k)) {
        Some(e) => Some(e.1),
        None => None,
    }
}

/// Whether a list of strings holds one whose text is `k`.
pub open spec fn has_str(s: Seq<String>, k: Seq<char>) -> bool {
    exists|i: int| 0 <= i < s.len() && (#[trigger] s[i])@ == k
}

/// The value under `k` in a `usize`-keyed association list.
pub fn get_usize(s: &Vec<(usize, u64)>, k: usize) -> (r: Option<u64>)
    ensures
        r == lookup_usize(s@, k),
{
    let ghost p = key_usize::<u64>(k);
    let mut i: usize = 0;
    while i < s.len()
        invariant
            i <= s@.len(),
            p == key_usize::<u64>(k),
            forall|j: int| 0 <= j < i ==> (#[trigger] s@[j]).0 != k,
        decreases s.len() - i,
    {
        if s[i].0 == k {
            proof {
                lemma_find_at(s@, p, i as int);
            }
            return Some(s[i].1);
        }
        i = i + 1;
    }
    proof {
        lemma_find_none(s@, p);
    }
    None
}

/// Whether a `usize` list contains `k`.
pub fn contains_usize(s: &Vec<usize>, k: usize) -> (r: bool)
    ensures
        r == s@.contains(k),
{
    let mut i: usize = 0;
    while i < s.len()
        invariant
            i <= s@.len(),
            forall|j: int| 0 <= j < i ==> s@[j] != k,
        decreases s.len() - i,
    {
        if s[i] == k {
            assert(s@[i as int] == k);
            return true;
        }
        i = i + 1;
    }
    false
}

/// Whether a string list contains one whose text is `k`.
pub fn contains_str(s: &Vec<String>, k: &String) -> (r: bool)
    ensures
        r == has_str(s@, k@),
{
    let mut i: usize = 0;
    while i < s.len()
        invariant
            i <= s@.len(),
            forall|j: int| 0 <= j < i ==> (#[trigger] s@[j])@ != k@,
        decreases s.len() - i,
    {
        if s[i] == *k {
            return true;
        }
        i = i + 1;
    }
    false
}

/// The string's text differs from `k`.
pub open spec fn text_ne(k: Seq<char>) -> spec_fn(String) -> bool {
    |x: String| x@ != k
}

/// `s` without any string whose text is `k`, in order.
pub open spec fn without_str(s: Seq<String>, k: Seq<char>) -> Seq<String> {
    s.filter(text_ne(k))
}

/// Removes every string whose text is `k`.
pub fn remove_str(s: &mut Vec<String>, k: &String)
    ensures
        final(s)@ == without_str(old(s)@, k@),
{
    let mut out: Vec<String> = Vec::new();
    let ghost src = s@;
    let mut i: usize = 0;
    while i < s.len()
        invariant
            s@ == src,
            i <= src.len(),
            out@ == src.subrange(0, i as int).filter(text_ne(k@)),
        decreases src.len() - i,
    {
        proof {
            reveal_with_fuel(Seq::filter, 1);
            assert(src.subrange(0, (i + 1) as int).drop_last() =~= src.subrange(0, i as int));
            assert(src.subrange(0, (i + 1) as int).last() == src[i as int]);
        }
        if s[i] != *k {
            out.push(s[i].clone());
        }
        i = i + 1;
    }
    assert(src.subrange(0, src.len() as int) =~= src);
    *s = out;
}


/// The association list with `k` bound to `v`: the first entry for `k`
/// replaced in place, or a new entry at the end.
pub open spec fn assoc_insert<V>(s: Seq<(String, V)>, k: String, v: V) -> Seq<(String, V)> {
    let i = find_index(s, key_str::<V>(k@));
    if i >= 0 {
        s.update(i, (k, v))
    } else {
        s.push((k, v))
    }
}

/// The index of the first entry keyed by the text of `k`.
pub fn str_index<V>(s: &Vec<(String, V)>, k: &String) -> (r: Option<usize>)
    ensures
        match r {
            Some(i) => i < s@.len() && find_index(s@, key_str::<V>(k@)) == i && find(
                s@,
                key_str::<V>(k@),
            ) == Some(s@[i as int]),
            None => find_index(s@, key_str::<V>(k@)) == -1 && find(s@, key_str::<V>(k@)) is None,
        },
{
    let mut i: usize = 0;
    while i < s.len()
        invariant
            i <= s@.len(),
            forall|j: int| 0 <= j < i ==> !key_str::<V>(k@)(#[trigger] s@[j]),
        decreases s.len() - i,
    {
        if s[i].0 == *k {
            proof {
                lemma_find_at(s@, key_str::<V>(k@), i as int);
            }
            return Some(i);
        }
        i = i + 1;
    }
    proof {
        lemma_find_none(s@, key_str::<V>(k@));
    }
    None
}

/// The value under the text of `k`, copied out.
pub fn str_get<V: Copy>(s: &Vec<(String, V)>, k: &String) -> (r: Option<V>)
    ensures
        r == lookup_str(s@, k@),
{
    match str_index(s, k) {
        Some(i) => Some(s[i].1),
        None => None,
    }
}

/// Binds `k` to `v`.
pub fn str_insert<V>(s: &mut Vec<(String, V)>, k: String, v: V)
    ensures
        final(s)@ == assoc_insert(old(s)@, k, v),
        distinct_str_keys(old(s)@) ==> distinct_str_keys(final(s)@),
{
    proof {
        lemma_assoc_insert_keeps_keys_distinct(s@, k, v);
    }
    match str_index(s, &k) {
        Some(i) => {
            s.set(i, (k, v));
        },
        None => {
            s.push((k, v));
        },
    }
}

/// Reading back a binding: the key just bound reads the new value, every
/// other key reads what it read before.
pub proof fn lemma_lookup_after_insert<V>(s: Seq<(String, V)>, k: String, v: V, q: Seq<char>)
    ensures
        lookup_str(assoc_insert(s, k, v), q) == (if q == k@ {
            Some(v)
        } else {
            lookup_str(s, q)
        }),
{
    let t = assoc_insert(s, k, v);
    let i = find_index(s, key_str::<V>(k@));
    if any(s, key_str::<V>(k@)) {
        lemma_find_some(s, key_str::<V>(k@));
    } else {
        lemma_find_none(s, key_str::<V>(k@));
    }
    if q == k@ {
        if i >= 0 {
            assert(forall|j: int| 0 <= j < i ==> t[j] == s[j]);
            lemma_find_at(t, key_str::<V>(q), i);
        } else {
            assert(forall|j: int| 0 <= j < s.len() ==> t[j] == s[j]);
            lemma_find_at(t, key_str::<V>(q), s.len() as int);
        }
    } else {
        if any(s, key_str::<V>(q)) {
            lemma_find_some(s, key_str::<V>(q));
            let m = find_index(s, key_str::<V>(q));
            assert(forall|j: int| 0 <= j < m ==> t[j] == s[j] || j == i);
            lemma_find_at(t, key_str::<V>(q), m);
        } else {
            lemma_find_none(s, key_str::<V>(q));
            assert forall|j: int| 0 <= j < t.len() implies !key_str::<V>(q)(#[trigger] t[j]) by {
                if j == i || j == s.len() {
                } else {
                    assert(t[j] == s[j]);
                }
            }
            lemma_find_none(t, key_str::<V>(q));
        }
    }
}


/// Strictly increasing: sorted, without repeats.
pub open spec fn increasing(s: Seq<usize>) -> bool {
    forall|i: int, j: int| 0 <= i < j < s.len() ==> s[i] < s[j]
}

/// The sorted, repeat-free listing of a finite set of ids.
pub open spec fn sorted_listing(ids: Set<usize>) -> Seq<usize> {
    choose|s: Seq<usize>| increasing(s) && s.to_set() == ids
}

/// Two increasing sequences holding the same ids are the same sequence.
pub proof fn lemma_increasing_unique(a: Seq<usize>, b: Seq<usize>)
    requires
        increasing(a),
        increasing(b),
        a.to_set() == b.to_set(),
    ensures
        a == b,
    decreases a.len(),
{
    if a.len() == 0 {
        if b.len() > 0 {
            assert(b.to_set().contains(b[0]));
            assert(!a.to_set().contains(b[0]));
        }
        assert(a =~= b);
    } else {
        if b.len() == 0 {
            assert(a.to_set().contains(a[0]));
            assert(!b.to_set().contains(a[0]));
        }
        // The heads are both the least element.
        assert(b.to_set().contains(a[0]));
        assert(a.to_set().contains(b[0]));
        let ja = choose|j: int| 0 <= j < a.len() && a[j] == b[0];
        let jb = choose|j: int| 0 <= j < b.len() && b[j] == a[0];
        if ja > 0 {
            assert(a[0] < a[ja]);
        }
        if jb > 0 {
            assert(b[0] < b[jb]);
        }
        assert(a[0] == b[0]);
        let a1 = a.drop_first();
        let b1 = b.drop_first();
        assert forall|x: usize| a1.to_set().contains(x) implies b1.to_set().contains(x) by {
            let k = choose|k: int| 0 <= k < a1.len() && a1[k] == x;
            assert(a[k + 1] == x);
            assert(a.to_set().contains(x));
            let m = choose|m: int| 0 <= m < b.len() && b[m] == x;
            assert(a[0] < a[k + 1]);
            if m == 0 {
                assert(false);
            }
            assert(b1[m - 1] == x);
        }
        assert forall|x: usize| b1.to_set().contains(x) implies a1.to_set().contains(x) by {
            let k = choose|k: int| 0 <= k < b1.len() && b1[k] == x;
            assert(b[k + 1] == x);
            assert(b.to_set().contains(x));
            let m = choose|m: int| 0 <= m < a.len() && a[m] == x;
            assert(b[0] < b[k + 1]);
            if m == 0 {
                assert(false);
            }
            assert(a1[m - 1] == x);
        }
        assert(a1.to_set() =~= b1.to_set());
        lemma_increasing_unique(a1, b1);
        assert(a.len() == b.len());
        assert forall|k: int| 0 <= k < a.len() implies a[k] == b[k] by {
            if k > 0 {
                assert(a[k] == a1[k - 1]);
                assert(b[k] == b1[k - 1]);
            }
        }
        assert(a =~= b);
    }
}

/// An increasing sequence is the sorted listing of its own ids.
pub proof fn lemma_is_sorted_listing(s: Seq<usize>)
    requires
        increasing(s),
    ensures
        sorted_listing(s.to_set()) == s,
{
    let t = sorted_listing(s.to_set());
    assert(increasing(s) && s.to_set() == s.to_set());
    lemma_increasing_unique(t, s);
}

/// Adds `x` to an increasing list of ids, keeping it increasing.
pub fn insert_sorted(v: &mut Vec<usize>, x: usize)
    requires
        increasing(old(v)@),
    ensures
        increasing(final(v)@),
        final(v)@.to_set() == old(v)@.to_set().insert(x),
{
    let ghost s = v@;
    let mut i: usize = 0;
    while i < v.len() && v[i] < x
        invariant
            v@ == s,
            i <= s.len(),
            forall|j: int| 0 <= j < i ==> s[j] < x,
        decreases s.len() - i,
    {
        i = i + 1;
    }
    if i < v.len() && v[i] == x {
        assert(s.to_set().insert(x) =~= s.to_set());
        return;
    }
    v.insert(i, x);
    assert(v@ == s.insert(i as int, x));
    assert forall|a: int, b: int| 0 <= a < b < v@.len() implies v@[a] < v@[b] by {
        if b < i {
        } else if b == i {
        } else if a < i {
            assert(v@[b] == s[b - 1]);
            if b - 1 > i {
                assert(s[i as int] < s[b - 1]);
            }
        } else if a == i {
            assert(v@[b] == s[b - 1]);
            if b - 1 > i {
                assert(s[i as int] < s[b - 1]);
            }
        } else {
            assert(v@[a] == s[a - 1] && v@[b] == s[b - 1]);
        }
    }
    assert forall|y: usize| v@.to_set().contains(y) implies s.to_set().insert(x).contains(y) by {
        let k = choose|k: int| 0 <= k < v@.len() && v@[k] == y;
        if k < i {
            assert(s[k] == y);
        } else if k > i {
            assert(s[k - 1] == y);
        }
    }
    assert forall|y: usize| s.to_set().insert(x).contains(y) implies v@.to_set().contains(y) by {
        if y == x {
            assert(v@[i as int] == x);
        } else {
            let k = choose|k: int| 0 <= k < s.len() && s[k] == y;
            if k < i {
                assert(v@[k] == y);
            } else {
                assert(v@[k + 1] == y);
            }
        }
    }
    assert(v@.to_set() =~= s.to_set().insert(x));
}


/// Appending keeps what was there and adds the new element.
pub proof fn lemma_push_contains<A>(s: Seq<A>, x: A)
    ensures
        s.push(x).contains(x),
        forall|y: A| s.contains(y) ==> #[trigger] s.push(x).contains(y),
{
    assert(s.push(x)[s.len() as int] == x);
    assert forall|y: A| s.contains(y) implies #[trigger] s.push(x).contains(y) by {
        let k = choose|k: int| 0 <= k < s.len() && s[k] == y;
        assert(s.push(x)[k] == y);
    }
}


/// The `u32`-keyed association list with `k` bound to `v`.
pub open spec fn assoc_insert_u32<V>(s: Seq<(u32, V)>, k: u32, v: V) -> Seq<(u32, V)> {
    let i = find_index(s, key_u32::<V>(k));
    if i >= 0 {
        s.update(i, (k, v))
    } else {
        s.push((k, v))
    }
}

/// The index of the first entry keyed by `k`.
pub fn u32_index<V>(s: &Vec<(u32, V)>, k: u32) -> (r: Option<usize>)
    ensures
        match r {
            Some(i) => i < s@.len() && find_index(s@, key_u32::<V>(k)) == i && find(
                s@,
                key_u32::<V>(k),
            ) == Some(s@[i as int]),
            None => find_index(s@, key_u32::<V>(k)) == -1 && find(s@, key_u32::<V>(k)) is None,
        },
{
    let mut i: usize = 0;
    while i < s.len()
        invariant
            i <= s@.len(),
            forall|j: int| 0 <= j < i ==> !key_u32::<V>(k)(#[trigger] s@[j]),
        decreases s.len() - i,
    {
        if s[i].0 == k {
            proof {
                lemma_find_at(s@, key_u32::<V>(k), i as int);
            }
            return Some(i);
        }
        i = i + 1;
    }
    proof {
        lemma_find_none(s@, key_u32::<V>(k));
    }
    None
}

/// Binds `k` to `v`.
pub fn u32_insert<V>(s: &mut Vec<(u32, V)>, k: u32, v: V)
    ensures
        final(s)@ == assoc_insert_u32(old(s)@, k, v),
        distinct_u32_keys(old(s)@) ==> distinct_u32_keys(final(s)@),
{
    proof {
        lemma_assoc_insert_u32_keeps_keys_distinct(s@, k, v);
    }
    match u32_index(s, k) {
        Some(i) => {
            s.set(i, (k, v));
        },
        None => {
            s.push((k, v));
        },
    }
}

/// The entry is not keyed by `k`.
pub open spec fn key_u32_ne<V>(k: u32) -> spec_fn((u32, V)) -> bool {
    |e: (u32, V)| e.0 != k
}

/// Drops every entry keyed by `k`.
pub fn u32_remove<V: Copy>(s: &mut Vec<(u32, V)>, k: u32)
    ensures
        final(s)@ == old(s)@.filter(key_u32_ne::<V>(k)),
{
    let ghost src = s@;
    let mut out: Vec<(u32, V)> = Vec::new();
    let mut i: usize = 0;
    while i < s.len()
        invariant
            s@ == src,
            i <= src.len(),
            out@ == src.subrange(0, i as int).filter(key_u32_ne::<V>(k)),
        decreases src.len() - i,
    {
        proof {
            reveal_with_fuel(Seq::filter, 1);
            assert(src.subrange(0, (i + 1) as int).drop_last() =~= src.subrange(0, i as int));
            assert(src.subrange(0, (i + 1) as int).last() == src[i as int]);
        }
        if s[i].0 != k {
            out.push(s[i]);
        }
        i = i + 1;
    }
    assert(src.subrange(0, src.len() as int) =~= src);
    *s = out;
}

/// No two entries share a key's text: the shape of the map the list
/// stands for.
pub open spec fn distinct_str_keys<V>(s: Seq<(String, V)>) -> bool {
    forall|i: int, j: int| 0 <= i < j < s.len() ==> (#[trigger] s[i]).0@ != (#[trigger] s[j]).0@
}

/// No two entries share a key.
pub open spec fn distinct_u32_keys<V>(s: Seq<(u32, V)>) -> bool {
    forall|i: int, j: int| 0 <= i < j < s.len() ==> (#[trigger] s[i]).0 != (#[trigger] s[j]).0
}

/// Binding a key keeps the keys distinct: an existing key is rebound in
/// place, a new one is added once.
pub proof fn lemma_assoc_insert_keeps_keys_distinct<V>(s: Seq<(String, V)>, k: String, v: V)
    ensures
        distinct_str_keys(s) ==> distinct_str_keys(assoc_insert(s, k, v)),
{
    if distinct_str_keys(s) {
        let p = key_str::<V>(k@);
        let t = assoc_insert(s, k, v);
        lemma_find_iff(s, p);
        if any(s, p) {
            lemma_find_some(s, p);
            let i = find_index(s, p);
            assert forall|a: int, b: int| 0 <= a < b < t.len() implies (#[trigger] t[a]).0@
                != (#[trigger] t[b]).0@ by {
                assert(t[a].0@ == s[a].0@);
                assert(t[b].0@ == s[b].0@);
            }
        } else {
            lemma_not_any(s, p);
            assert forall|a: int, b: int| 0 <= a < b < t.len() implies (#[trigger] t[a]).0@
                != (#[trigger] t[b]).0@ by {
                if b == s.len() {
                    assert(!p(s[a]));
                } else {
                    assert(t[a] == s[a] && t[b] == s[b]);
                }
            }
        }
    }
}

/// Binding a key keeps the keys distinct.
pub proof fn lemma_assoc_insert_u32_keeps_keys_distinct<V>(s: Seq<(u32, V)>, k: u32, v: V)
    ensures
        distinct_u32_keys(s) ==> distinct_u32_keys(assoc_insert_u32(s, k, v)),
{
    if distinct_u32_keys(s) {
        let p = key_u32::<V>(k);
        let t = assoc_insert_u32(s, k, v);
        lemma_find_iff(s, p);
        if any(s, p) {
            lemma_find_some(s, p);
            assert forall|a: int, b: int| 0 <= a < b < t.len() implies (#[trigger] t[a]).0
                != (#[trigger] t[b]).0 by {
                assert(t[a].0 == s[a].0);
                assert(t[b].0 == s[b].0);
            }
        } else {
            lemma_not_any(s, p);
            assert forall|a: int, b: int| 0 <= a < b < t.len() implies (#[trigger] t[a]).0
                != (#[trigger] t[b]).0 by {
                if b == s.len() {
                    assert(!p(s[a]));
                } else {
                    assert(t[a] == s[a] && t[b] == s[b]);
                }
            }
        }
    }
}

} // verus!
