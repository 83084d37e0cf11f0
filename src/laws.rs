use vstd::prelude::*;

use crate::lru::{Entries, get_model, has_key, keys_unique, set_model, value_of};

verus! {

/// Storing never takes the cache past its bound: from contents within `cap`,
/// the contents after a store are within `cap` too.
pub proof fn law_set_within_capacity(m: Entries, cap: nat, k: Seq<char>, v: Seq<char>)
    requires
        keys_unique(m),
        1 <= cap,
        m.len() <= cap,
    ensures
        set_model(m, cap, k, v).len() <= cap,
        keys_unique(set_model(m, cap, k, v)),
{
    let r = set_model(m, cap, k, v);
    if has_key(m, k) {
        let i = choose|i: int| 0 <= i < m.len() && #[trigger] m[i].0 == k;
        assert forall|a: int, b: int|
            0 <= a < r.len() && 0 <= b < r.len() && a != b implies #[trigger] r[a].0 != #[trigger] r[b].0 by {
            let oa = if a == 0 { i } else if a - 1 < i { a - 1 } else { a };
            let ob = if b == 0 { i } else if b - 1 < i { b - 1 } else { b };
            assert(r[a].0 == m[oa].0);
            assert(r[b].0 == m[ob].0);
        }
    } else {
        assert forall|a: int, b: int|
            0 <= a < r.len() && 0 <= b < r.len() && a != b implies #[trigger] r[a].0 != #[trigger] r[b].0 by {
            if a > 0 {
                assert(r[a].0 == m[a - 1].0);
            }
            if b > 0 {
                assert(r[b].0 == m[b - 1].0);
            }
        }
    }
}

/// A lookup that hits puts the key found in front and keeps every other entry,
/// in its previous relative order, behind it.
pub proof fn law_get_recency(m: Entries, k: Seq<char>, i: int)
    requires
        keys_unique(m),
        0 <= i < m.len(),
        m[i].0 == k,
    ensures
        get_model(m, k) == seq![m[i]] + m.remove(i),
{
    let j = choose|j: int| 0 <= j < m.len() && #[trigger] m[j].0 == k;
    assert(i == j);
    assert(get_model(m, k) =~= seq![m[i]] + m.remove(i));
}

/// A store puts its key, with the new value, in front; behind it stand the other
/// entries in their previous relative order, less the least recently used one when
/// a new key met a full cache.
pub proof fn law_set_recency(m: Entries, cap: nat, k: Seq<char>, v: Seq<char>)
    requires
        keys_unique(m),
        1 <= cap,
        m.len() <= cap,
    ensures
        set_model(m, cap, k, v)[0] == (k, v),
        has_key(m, k) ==> forall|i: int|
            0 <= i < m.len() && #[trigger] m[i].0 == k ==> set_model(m, cap, k, v).drop_first()
                == m.remove(i),
        !has_key(m, k) && m.len() == cap ==> set_model(m, cap, k, v).drop_first() == m.drop_last(),
        !has_key(m, k) && m.len() < cap ==> set_model(m, cap, k, v).drop_first() == m,
{
    let r = set_model(m, cap, k, v);
    if has_key(m, k) {
        let j = choose|j: int| 0 <= j < m.len() && #[trigger] m[j].0 == k;
        assert forall|i: int| 0 <= i < m.len() && #[trigger] m[i].0 == k implies r.drop_first()
            == m.remove(i) by {
            assert(i == j);
            assert(r.drop_first() =~= m.remove(i));
        }
    } else {
        assert(r.drop_first() =~= (if m.len() == cap { m.drop_last() } else { m }));
    }
}

/// A new key stored in a full cache evicts exactly the least recently used key:
/// that key is gone, and every other key stays.
pub proof fn law_eviction(m: Entries, cap: nat, k: Seq<char>, v: Seq<char>)
    requires
        keys_unique(m),
        1 <= cap,
        m.len() == cap,
        !has_key(m, k),
    ensures
        !has_key(set_model(m, cap, k, v), m.last().0),
        has_key(set_model(m, cap, k, v), k),
        forall|k2: Seq<char>|
            k2 != m.last().0 && has_key(m, k2) ==> #[trigger] has_key(set_model(m, cap, k, v), k2),
{
    let r = set_model(m, cap, k, v);
    let n = m.len();
    assert(r[0].0 == k);
    if has_key(r, m.last().0) {
        let i = choose|i: int| 0 <= i < r.len() && #[trigger] r[i].0 == m.last().0;
        if i == 0 {
            assert(m[n - 1].0 == k);
        } else {
            assert(r[i] == m[i - 1]);
            assert(m[i - 1].0 != m[n - 1].0);
        }
    }
    assert forall|k2: Seq<char>| k2 != m.last().0 && has_key(m, k2) implies #[trigger] has_key(r, k2) by {
        let i = choose|i: int| 0 <= i < m.len() && #[trigger] m[i].0 == k2;
        assert(i != n - 1);
        assert(r[i + 1].0 == k2);
    }
}

/// Storing under a key already present keeps the number of entries.
pub proof fn law_update_keeps_size(m: Entries, cap: nat, k: Seq<char>, v: Seq<char>)
    requires
        has_key(m, k),
    ensures
        set_model(m, cap, k, v).len() == m.len(),
{
}

/// A value stored under a key is what a lookup of that key finds next.
pub proof fn law_round_trip(m: Entries, cap: nat, k: Seq<char>, v: Seq<char>)
    requires
        keys_unique(m),
        1 <= cap,
        m.len() <= cap,
    ensures
        has_key(set_model(m, cap, k, v), k),
        value_of(set_model(m, cap, k, v), k) == v,
{
    let r = set_model(m, cap, k, v);
    law_set_within_capacity(m, cap, k, v);
    law_set_recency(m, cap, k, v);
    assert(r[0].0 == k);
    let i = choose|i: int| 0 <= i < r.len() && #[trigger] r[i].0 == k;
    if i != 0 {
        assert(r[i].0 != r[0].0);
    }
}

} // verus!
