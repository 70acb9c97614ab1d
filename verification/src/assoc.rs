//! First-match lookup over association sequences. The index maps are kept
//! as vectors of pairs in insertion order, so that builds are
//! deterministic; these spec functions give their map semantics.

use vstd::prelude::*;

verus! {

/// First value bound to `key`, scanning left to right.
pub open spec fn lookup_u32<V>(s: Seq<(u32, V)>, key: u32) -> Option<V>
    decreases s.len(),
{
    if s.len() == 0 {
        None
    } else if s[0].0 == key {
        Some(s[0].1)
    } else {
        lookup_u32(s.drop_first(), key)
    }
}

/// First value bound to the byte-sequence `key`, scanning left to right.
pub open spec fn lookup_bytes<V>(s: Seq<(Seq<u8>, V)>, key: Seq<u8>) -> Option<V>
    decreases s.len(),
{
    if s.len() == 0 {
        None
    } else if s[0].0 == key {
        Some(s[0].1)
    } else {
        lookup_bytes(s.drop_first(), key)
    }
}

/// No duplicate keys.
pub open spec fn unique_keys_u32<V>(s: Seq<(u32, V)>) -> bool {
    forall|i: int, j: int| 0 <= i < j < s.len() ==> s[i].0 != s[j].0
}

/// No duplicate byte-sequence keys.
pub open spec fn unique_keys_bytes<V>(s: Seq<(Seq<u8>, V)>) -> bool {
    forall|i: int, j: int| 0 <= i < j < s.len() ==> s[i].0 != s[j].0
}

pub proof fn lemma_lookup_u32_skip_miss<V>(s: Seq<(u32, V)>, key: u32, i: int)
    requires
        0 <= i < s.len(),
        s[i].0 != key,
    ensures
        lookup_u32(s.skip(i), key) == lookup_u32(s.skip(i + 1), key),
{
    assert(s.skip(i).drop_first() =~= s.skip(i + 1));
    assert(s.skip(i)[0] == s[i]);
}

pub proof fn lemma_lookup_u32_skip_hit<V>(s: Seq<(u32, V)>, key: u32, i: int)
    requires
        0 <= i < s.len(),
        s[i].0 == key,
    ensures
        lookup_u32(s.skip(i), key) == Some(s[i].1),
{
    assert(s.skip(i)[0] == s[i]);
}

pub proof fn lemma_lookup_bytes_skip_miss<V>(s: Seq<(Seq<u8>, V)>, key: Seq<u8>, i: int)
    requires
        0 <= i < s.len(),
        s[i].0 != key,
    ensures
        lookup_bytes(s.skip(i), key) == lookup_bytes(s.skip(i + 1), key),
{
    assert(s.skip(i).drop_first() =~= s.skip(i + 1));
    assert(s.skip(i)[0] == s[i]);
}

pub proof fn lemma_lookup_bytes_skip_hit<V>(s: Seq<(Seq<u8>, V)>, key: Seq<u8>, i: int)
    requires
        0 <= i < s.len(),
        s[i].0 == key,
    ensures
        lookup_bytes(s.skip(i), key) == Some(s[i].1),
{
    assert(s.skip(i)[0] == s[i]);
}

/// A lookup that misses finds no key anywhere, and a hit names some entry.
pub proof fn lemma_lookup_u32_characterized<V>(s: Seq<(u32, V)>, key: u32)
    ensures
        lookup_u32(s, key) is None <==> forall|j: int| 0 <= j < s.len() ==> s[j].0 != key,
        lookup_u32(s, key) matches Some(v) ==> exists|j: int|
            0 <= j < s.len() && s[j] == (key, v),
    decreases s.len(),
{
    if s.len() > 0 {
        lemma_lookup_u32_characterized(s.drop_first(), key);
        if s[0].0 != key && lookup_u32(s, key) is Some {
            let v = lookup_u32(s, key)->Some_0;
            let j = choose|j: int|
                0 <= j < s.drop_first().len() && s.drop_first()[j] == (key, v);
            assert(s[j + 1] == (key, v));
        }
        if lookup_u32(s, key) is None {
            assert forall|j: int| 0 <= j < s.len() implies s[j].0 != key by {
                if j > 0 {
                    assert(s.drop_first()[j - 1].0 != key);
                }
            }
        }
        if forall|j: int| 0 <= j < s.len() ==> s[j].0 != key {
            assert forall|j: int|
                0 <= j < s.drop_first().len() implies s.drop_first()[j].0 != key by {
                assert(s[j + 1].0 != key);
            }
        }
    }
}

pub proof fn lemma_lookup_bytes_characterized<V>(s: Seq<(Seq<u8>, V)>, key: Seq<u8>)
    ensures
        lookup_bytes(s, key) is None <==> forall|j: int| 0 <= j < s.len() ==> s[j].0 != key,
        lookup_bytes(s, key) matches Some(v) ==> exists|j: int|
            0 <= j < s.len() && s[j] == (key, v),
    decreases s.len(),
{
    if s.len() > 0 {
        lemma_lookup_bytes_characterized(s.drop_first(), key);
        if s[0].0 != key && lookup_bytes(s, key) is Some {
            let v = lookup_bytes(s, key)->Some_0;
            let j = choose|j: int|
                0 <= j < s.drop_first().len() && s.drop_first()[j] == (key, v);
            assert(s[j + 1] == (key, v));
        }
        if lookup_bytes(s, key) is None {
            assert forall|j: int| 0 <= j < s.len() implies s[j].0 != key by {
                if j > 0 {
                    assert(s.drop_first()[j - 1].0 != key);
                }
            }
        }
        if forall|j: int| 0 <= j < s.len() ==> s[j].0 != key {
            assert forall|j: int|
                0 <= j < s.drop_first().len() implies s.drop_first()[j].0 != key by {
                assert(s[j + 1].0 != key);
            }
        }
    }
}

/// With unique keys, an entry that is present is the one a lookup finds.
pub proof fn lemma_lookup_u32_unique<V>(s: Seq<(u32, V)>, j: int)
    requires
        unique_keys_u32(s),
        0 <= j < s.len(),
    ensures
        lookup_u32(s, s[j].0) == Some(s[j].1),
    decreases s.len(),
{
    if j == 0 {
    } else {
        assert(s[0].0 != s[j].0);
        assert(s.drop_first()[j - 1] == s[j]);
        assert forall|a: int, b: int|
            0 <= a < b < s.drop_first().len() implies s.drop_first()[a].0
            != s.drop_first()[b].0 by {
            assert(s[a + 1].0 != s[b + 1].0);
        }
        lemma_lookup_u32_unique(s.drop_first(), j - 1);
    }
}

pub proof fn lemma_lookup_bytes_unique<V>(s: Seq<(Seq<u8>, V)>, j: int)
    requires
        unique_keys_bytes(s),
        0 <= j < s.len(),
    ensures
        lookup_bytes(s, s[j].0) == Some(s[j].1),
    decreases s.len(),
{
    if j == 0 {
    } else {
        assert(s[0].0 != s[j].0);
        assert(s.drop_first()[j - 1] == s[j]);
        assert forall|a: int, b: int|
            0 <= a < b < s.drop_first().len() implies s.drop_first()[a].0
            != s.drop_first()[b].0 by {
            assert(s[a + 1].0 != s[b + 1].0);
        }
        lemma_lookup_bytes_unique(s.drop_first(), j - 1);
    }
}

/// Appending an entry with a fresh key leaves other lookups unchanged.
pub proof fn lemma_lookup_u32_push<V>(s: Seq<(u32, V)>, key: u32, v: V, k: u32)
    ensures
        k == key && lookup_u32(s, key) is None ==> lookup_u32(s.push((key, v)), k) == Some(v),
        k != key ==> lookup_u32(s.push((key, v)), k) == lookup_u32(s, k),
    decreases s.len(),
{
    let t = s.push((key, v));
    if s.len() > 0 {
        lemma_lookup_u32_push(s.drop_first(), key, v, k);
        assert(t.drop_first() =~= s.drop_first().push((key, v)));
        assert(t[0] == s[0]);
        if s[0].0 == k {
            assert(lookup_u32(t, k) == Some(s[0].1));
            assert(lookup_u32(s, k) == Some(s[0].1));
        } else {
            assert(lookup_u32(t, k) == lookup_u32(t.drop_first(), k));
            assert(lookup_u32(s, k) == lookup_u32(s.drop_first(), k));
        }
    } else {
        assert(t[0] == (key, v));
        assert(t.drop_first() =~= Seq::<(u32, V)>::empty());
        if k == key {
            assert(lookup_u32(t, k) == Some(v));
        } else {
            assert(lookup_u32(t, k) == lookup_u32(t.drop_first(), k));
        }
    }
}


/// First value bound to the character-sequence `key`.
pub open spec fn lookup_chars<V>(s: Seq<(Seq<char>, V)>, key: Seq<char>) -> Option<V>
    decreases s.len(),
{
    if s.len() == 0 {
        None
    } else if s[0].0 == key {
        Some(s[0].1)
    } else {
        lookup_chars(s.drop_first(), key)
    }
}

pub open spec fn unique_keys_chars<V>(s: Seq<(Seq<char>, V)>) -> bool {
    forall|i: int, j: int| 0 <= i < j < s.len() ==> s[i].0 != s[j].0
}

pub proof fn lemma_lookup_chars_skip_miss<V>(s: Seq<(Seq<char>, V)>, key: Seq<char>, i: int)
    requires
        0 <= i < s.len(),
        s[i].0 != key,
    ensures
        lookup_chars(s.skip(i), key) == lookup_chars(s.skip(i + 1), key),
{
    assert(s.skip(i).drop_first() =~= s.skip(i + 1));
    assert(s.skip(i)[0] == s[i]);
}

pub proof fn lemma_lookup_chars_skip_hit<V>(s: Seq<(Seq<char>, V)>, key: Seq<char>, i: int)
    requires
        0 <= i < s.len(),
        s[i].0 == key,
    ensures
        lookup_chars(s.skip(i), key) == Some(s[i].1),
{
    assert(s.skip(i)[0] == s[i]);
}

pub proof fn lemma_lookup_chars_characterized<V>(s: Seq<(Seq<char>, V)>, key: Seq<char>)
    ensures
        lookup_chars(s, key) is None <==> forall|j: int| 0 <= j < s.len() ==> s[j].0 != key,
        lookup_chars(s, key) matches Some(v) ==> exists|j: int|
            0 <= j < s.len() && s[j] == (key, v),
    decreases s.len(),
{
    if s.len() > 0 {
        lemma_lookup_chars_characterized(s.drop_first(), key);
        if s[0].0 != key && lookup_chars(s, key) is Some {
            let v = lookup_chars(s, key)->Some_0;
            let j = choose|j: int|
                0 <= j < s.drop_first().len() && s.drop_first()[j] == (key, v);
            assert(s[j + 1] == (key, v));
        }
        if lookup_chars(s, key) is None {
            assert forall|j: int| 0 <= j < s.len() implies s[j].0 != key by {
                if j > 0 {
                    assert(s.drop_first()[j - 1].0 != key);
                }
            }
        }
        if forall|j: int| 0 <= j < s.len() ==> s[j].0 != key {
            assert forall|j: int|
                0 <= j < s.drop_first().len() implies s.drop_first()[j].0 != key by {
                assert(s[j + 1].0 != key);
            }
        }
    }
}


/// Replacing the value at one position changes only that key's lookup.
pub proof fn lemma_lookup_u32_update<V>(s: Seq<(u32, V)>, j: int, v: V, k: u32)
    requires
        unique_keys_u32(s),
        0 <= j < s.len(),
    ensures
        k == s[j].0 ==> lookup_u32(s.update(j, (s[j].0, v)), k) == Some(v),
        k != s[j].0 ==> lookup_u32(s.update(j, (s[j].0, v)), k) == lookup_u32(s, k),
    decreases s.len(),
{
    let t = s.update(j, (s[j].0, v));
    if j == 0 {
        assert(t[0] == (s[0].0, v));
        assert(t.drop_first() =~= s.drop_first());
        if k != s[0].0 {
            assert(lookup_u32(t, k) == lookup_u32(t.drop_first(), k));
            assert(lookup_u32(s, k) == lookup_u32(s.drop_first(), k));
        }
    } else {
        assert(t[0] == s[0]);
        assert(t.drop_first() =~= s.drop_first().update(j - 1, (s[j].0, v)));
        assert(s.drop_first()[j - 1] == s[j]);
        assert forall|a: int, b: int|
            0 <= a < b < s.drop_first().len() implies s.drop_first()[a].0
            != s.drop_first()[b].0 by {
            assert(s[a + 1].0 != s[b + 1].0);
        }
        lemma_lookup_u32_update(s.drop_first(), j - 1, v, k);
        if k == s[j].0 {
            assert(s[0].0 != s[j].0);
            assert(lookup_u32(t, k) == lookup_u32(t.drop_first(), k));
        } else if k == s[0].0 {
            assert(lookup_u32(t, k) == Some(s[0].1));
            assert(lookup_u32(s, k) == Some(s[0].1));
        } else {
            assert(lookup_u32(t, k) == lookup_u32(t.drop_first(), k));
            assert(lookup_u32(s, k) == lookup_u32(s.drop_first(), k));
        }
    }
}


/// Replacing the value at one position changes only that key's lookup.
pub proof fn lemma_lookup_bytes_update<V>(s: Seq<(Seq<u8>, V)>, j: int, v: V, k: Seq<u8>)
    requires
        unique_keys_bytes(s),
        0 <= j < s.len(),
    ensures
        k == s[j].0 ==> lookup_bytes(s.update(j, (s[j].0, v)), k) == Some(v),
        k != s[j].0 ==> lookup_bytes(s.update(j, (s[j].0, v)), k) == lookup_bytes(s, k),
    decreases s.len(),
{
    let t = s.update(j, (s[j].0, v));
    if j == 0 {
        assert(t[0] == (s[0].0, v));
        assert(t.drop_first() =~= s.drop_first());
        if k != s[0].0 {
            assert(lookup_bytes(t, k) == lookup_bytes(t.drop_first(), k));
            assert(lookup_bytes(s, k) == lookup_bytes(s.drop_first(), k));
        }
    } else {
        assert(t[0] == s[0]);
        assert(t.drop_first() =~= s.drop_first().update(j - 1, (s[j].0, v)));
        assert(s.drop_first()[j - 1] == s[j]);
        assert forall|a: int, b: int|
            0 <= a < b < s.drop_first().len() implies s.drop_first()[a].0
            != s.drop_first()[b].0 by {
            assert(s[a + 1].0 != s[b + 1].0);
        }
        lemma_lookup_bytes_update(s.drop_first(), j - 1, v, k);
        if k == s[j].0 {
            assert(s[0].0 != s[j].0);
            assert(lookup_bytes(t, k) == lookup_bytes(t.drop_first(), k));
        } else if k == s[0].0 {
            assert(lookup_bytes(t, k) == Some(s[0].1));
            assert(lookup_bytes(s, k) == Some(s[0].1));
        } else {
            assert(lookup_bytes(t, k) == lookup_bytes(t.drop_first(), k));
            assert(lookup_bytes(s, k) == lookup_bytes(s.drop_first(), k));
        }
    }
}

/// Appending an entry with a fresh byte key decides every lookup.
pub proof fn lemma_lookup_bytes_append<V>(s: Seq<(Seq<u8>, V)>, key: Seq<u8>, v: V, k: Seq<u8>)
    requires
        unique_keys_bytes(s),
        forall|j: int| 0 <= j < s.len() ==> (#[trigger] s[j]).0 != key,
    ensures
        k == key ==> lookup_bytes(s.push((key, v)), k) == Some(v),
        k != key ==> lookup_bytes(s.push((key, v)), k) == lookup_bytes(s, k),
{
    let t = s.push((key, v));
    assert forall|a: int, b: int| 0 <= a < b < t.len() implies t[a].0 != t[b].0 by {
        if b < s.len() {
            assert(s[a].0 != s[b].0);
        } else {
            assert(s[a].0 != key);
        }
    }
    if k == key {
        assert(t[t.len() - 1] == (key, v));
        lemma_lookup_bytes_unique(t, t.len() - 1);
    } else {
        lemma_lookup_bytes_characterized(s, k);
        lemma_lookup_bytes_characterized(t, k);
        if lookup_bytes(s, k) is Some {
            let v2 = lookup_bytes(s, k)->Some_0;
            let j = choose|j: int| 0 <= j < s.len() && s[j] == (k, v2);
            assert(t[j] == (k, v2));
            lemma_lookup_bytes_unique(t, j);
        } else {
            assert forall|j: int| 0 <= j < t.len() implies t[j].0 != k by {
                if j < s.len() {
                    assert(s[j].0 != k);
                }
            }
        }
    }
}


pub proof fn lemma_lookup_chars_unique<V>(s: Seq<(Seq<char>, V)>, j: int)
    requires
        unique_keys_chars(s),
        0 <= j < s.len(),
    ensures
        lookup_chars(s, s[j].0) == Some(s[j].1),
    decreases s.len(),
{
    if j == 0 {
    } else {
        assert(s[0].0 != s[j].0);
        assert(s.drop_first()[j - 1] == s[j]);
        assert forall|a: int, b: int|
            0 <= a < b < s.drop_first().len() implies s.drop_first()[a].0
            != s.drop_first()[b].0 by {
            assert(s[a + 1].0 != s[b + 1].0);
        }
        lemma_lookup_chars_unique(s.drop_first(), j - 1);
    }
}

} // verus!
