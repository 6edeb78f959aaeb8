//! Lexicographic orders on byte strings and on sequences of byte strings,
//! and sorted, duplicate-free vectors of such sequences.

use vstd::prelude::*;

verus! {

/// The outcome of comparing two values.
pub enum Order {
    Less,
    Equal,
    Greater,
}

/// `lt` is a strict total order.
pub open spec fn strict_total<T>(lt: spec_fn(T, T) -> bool) -> bool {
    &&& forall|x: T| !#[trigger] lt(x, x)
    &&& forall|x: T, y: T, z: T| #[trigger] lt(x, y) && #[trigger] lt(y, z) ==> lt(x, z)
    &&& forall|x: T, y: T| x != y ==> #[trigger] lt(x, y) || #[trigger] lt(y, x)
}

/// Lexicographic order built on the order `lt` of the elements: the first
/// differing position decides, and a proper prefix comes first.
pub open spec fn lex_lt<T>(s: Seq<T>, t: Seq<T>, lt: spec_fn(T, T) -> bool) -> bool
    decreases s.len(),
{
    if s.len() == 0 {
        t.len() > 0
    } else if t.len() == 0 {
        false
    } else if s[0] != t[0] {
        lt(s[0], t[0])
    } else {
        lex_lt(s.drop_first(), t.drop_first(), lt)
    }
}

/// The order of bytes.
pub open spec fn byte_order() -> spec_fn(u8, u8) -> bool {
    |a: u8, b: u8| a < b
}

/// The order of byte strings (that of Rust's `Ord` on `[u8]` and on `str`).
pub open spec fn bytes_lt(s: Seq<u8>, t: Seq<u8>) -> bool {
    lex_lt(s, t, byte_order())
}

/// The order of byte strings, as a function value.
pub open spec fn field_order() -> spec_fn(Seq<u8>, Seq<u8>) -> bool {
    |s: Seq<u8>, t: Seq<u8>| bytes_lt(s, t)
}

/// The order of keys: sequences of byte strings compared field by field.
pub open spec fn key_lt(s: Seq<Seq<u8>>, t: Seq<Seq<u8>>) -> bool {
    lex_lt(s, t, field_order())
}

/// The order of keys, as a function value.
pub open spec fn key_order() -> spec_fn(Seq<Seq<u8>>, Seq<Seq<u8>>) -> bool {
    |s: Seq<Seq<u8>>, t: Seq<Seq<u8>>| key_lt(s, t)
}

/// `s` is strictly increasing for `lt` (hence free of duplicates).
pub open spec fn sorted_by<T>(s: Seq<T>, lt: spec_fn(T, T) -> bool) -> bool {
    forall|i: int, j: int| 0 <= i < j < s.len() ==> #[trigger] lt(s[i], s[j])
}

/// The view of a key held as vectors.
pub open spec fn key_view(k: Vec<Vec<u8>>) -> Seq<Seq<u8>> {
    k@.map_values(|f: Vec<u8>| f@)
}

/// The view of a vector of keys.
pub open spec fn keys_view(v: Seq<Vec<Vec<u8>>>) -> Seq<Seq<Seq<u8>>> {
    v.map_values(|k: Vec<Vec<u8>>| key_view(k))
}

/// The lexicographic order of a strict total order is a strict total order.
pub proof fn lemma_lex_strict_total<T>(lt: spec_fn(T, T) -> bool)
    requires
        strict_total(lt),
    ensures
        strict_total(|s: Seq<T>, t: Seq<T>| lex_lt(s, t, lt)),
{
    let l = |s: Seq<T>, t: Seq<T>| lex_lt(s, t, lt);
    assert forall|x: Seq<T>| !#[trigger] l(x, x) by {
        lemma_lex_irreflexive(x, lt);
    }
    assert forall|x: Seq<T>, y: Seq<T>, z: Seq<T>| #[trigger] l(x, y) && #[trigger] l(y, z) implies l(x, z) by {
        lemma_lex_transitive(x, y, z, lt);
    }
    assert forall|x: Seq<T>, y: Seq<T>| x != y implies #[trigger] l(x, y) || #[trigger] l(y, x) by {
        lemma_lex_total(x, y, lt);
    }
}

/// No sequence comes before itself.
pub proof fn lemma_lex_irreflexive<T>(s: Seq<T>, lt: spec_fn(T, T) -> bool)
    ensures
        !lex_lt(s, s, lt),
    decreases s.len(),
{
    if s.len() > 0 {
        lemma_lex_irreflexive(s.drop_first(), lt);
    }
}

/// The lexicographic order is transitive.
pub proof fn lemma_lex_transitive<T>(s: Seq<T>, t: Seq<T>, u: Seq<T>, lt: spec_fn(T, T) -> bool)
    requires
        strict_total(lt),
        lex_lt(s, t, lt),
        lex_lt(t, u, lt),
    ensures
        lex_lt(s, u, lt),
    decreases s.len(),
{
    if s.len() > 0 && t.len() > 0 && u.len() > 0 {
        if s[0] == t[0] && t[0] == u[0] {
            lemma_lex_transitive(s.drop_first(), t.drop_first(), u.drop_first(), lt);
        } else if s[0] != t[0] && t[0] != u[0] {
            assert(lt(s[0], t[0]) && lt(t[0], u[0]));
            if s[0] == u[0] {
                assert(lt(u[0], t[0]));
                assert(lt(t[0], t[0]));
            }
        }
    }
}

/// Two different sequences are ordered one way or the other.
pub proof fn lemma_lex_total<T>(s: Seq<T>, t: Seq<T>, lt: spec_fn(T, T) -> bool)
    requires
        strict_total(lt),
        s != t,
    ensures
        lex_lt(s, t, lt) || lex_lt(t, s, lt),
    decreases s.len(),
{
    if s.len() == 0 {
        assert(t.len() > 0) by {
            if t.len() == 0 {
                assert(s =~= t);
            }
        }
    } else if t.len() == 0 {
    } else if s[0] != t[0] {
        assert(lt(s[0], t[0]) || lt(t[0], s[0]));
    } else {
        assert(s.drop_first() != t.drop_first()) by {
            if s.drop_first() == t.drop_first() {
                assert(s =~= seq![s[0]] + s.drop_first());
                assert(t =~= seq![t[0]] + t.drop_first());
            }
        }
        lemma_lex_total(s.drop_first(), t.drop_first(), lt);
    }
}

/// Positions where two sequences agree do not decide their order.
pub proof fn lemma_lex_skip_common<T>(s: Seq<T>, t: Seq<T>, i: int, lt: spec_fn(T, T) -> bool)
    requires
        0 <= i <= s.len(),
        i <= t.len(),
        s.take(i) == t.take(i),
    ensures
        lex_lt(s, t, lt) == lex_lt(s.skip(i), t.skip(i), lt),
    decreases i,
{
    if i > 0 {
        assert(s[0] == s.take(i)[0]);
        assert(t[0] == t.take(i)[0]);
        assert(s.drop_first().take(i - 1) =~= s.take(i).drop_first());
        assert(t.drop_first().take(i - 1) =~= t.take(i).drop_first());
        lemma_lex_skip_common(s.drop_first(), t.drop_first(), i - 1, lt);
        assert(s.drop_first().skip(i - 1) =~= s.skip(i));
        assert(t.drop_first().skip(i - 1) =~= t.skip(i));
    } else {
        assert(s.skip(0) =~= s);
        assert(t.skip(0) =~= t);
    }
}

/// Bytes are totally ordered.
pub proof fn lemma_byte_order_strict_total()
    ensures
        strict_total(byte_order()),
{
}

/// Byte strings are totally ordered.
pub proof fn lemma_field_order_strict_total()
    ensures
        strict_total(field_order()),
{
    lemma_byte_order_strict_total();
    lemma_lex_strict_total(byte_order());
    let a = |s: Seq<u8>, t: Seq<u8>| lex_lt(s, t, byte_order());
    assert(field_order() =~= a);
}

/// Keys are totally ordered.
pub proof fn lemma_key_order_strict_total()
    ensures
        strict_total(key_order()),
{
    lemma_field_order_strict_total();
    lemma_lex_strict_total(field_order());
    let a = |s: Seq<Seq<u8>>, t: Seq<Seq<u8>>| lex_lt(s, t, field_order());
    assert(key_order() =~= a);
}


/// A strictly sorted sequence holds no element twice.
pub proof fn lemma_sorted_no_duplicates<T>(s: Seq<T>, lt: spec_fn(T, T) -> bool)
    requires
        strict_total(lt),
        sorted_by(s, lt),
    ensures
        s.no_duplicates(),
{
    assert forall|i: int, j: int| 0 <= i < s.len() && 0 <= j < s.len() && i != j implies s[i]
        != s[j] by {
        if i < j {
            assert(lt(s[i], s[j]));
        } else {
            assert(lt(s[j], s[i]));
        }
    }
}

/// Two strictly sorted sequences with the same elements are equal: a finite
/// set has exactly one sorted enumeration.
pub proof fn lemma_sorted_unique<T>(s: Seq<T>, t: Seq<T>, lt: spec_fn(T, T) -> bool)
    requires
        strict_total(lt),
        sorted_by(s, lt),
        sorted_by(t, lt),
        s.to_set() == t.to_set(),
    ensures
        s == t,
    decreases s.len(),
{
    if s.len() == 0 {
        if t.len() > 0 {
            assert(t.to_set().contains(t[0]));
        }
        assert(s =~= t);
    } else {
        assert(s.to_set().contains(s[0]));
        assert(t.len() > 0);
        if s[0] != t[0] {
            assert(t.to_set().contains(s[0]));
            let j = choose|j: int| 0 <= j < t.len() && t[j] == s[0];
            assert(j > 0);
            assert(lt(t[0], t[j]));
            assert(s.to_set().contains(t[0]));
            let k = choose|k: int| 0 <= k < s.len() && s[k] == t[0];
            assert(k > 0);
            assert(lt(s[0], s[k]));
            assert(lt(s[0], s[0]));
        }
        lemma_sorted_no_duplicates(s, lt);
        lemma_sorted_no_duplicates(t, lt);
        let s1 = s.drop_first();
        let t1 = t.drop_first();
        assert(s1.to_set() =~= t1.to_set()) by {
            assert forall|x: T| s1.to_set().contains(x) implies t1.to_set().contains(x) by {
                let i = choose|i: int| 0 <= i < s1.len() && s1[i] == x;
                assert(s[i + 1] == x);
                assert(x != s[0]);
                assert(t.to_set().contains(x));
                let j = choose|j: int| 0 <= j < t.len() && t[j] == x;
                assert(j != 0);
                assert(t1[j - 1] == x);
            }
            assert forall|x: T| t1.to_set().contains(x) implies s1.to_set().contains(x) by {
                let i = choose|i: int| 0 <= i < t1.len() && t1[i] == x;
                assert(t[i + 1] == x);
                assert(x != t[0]);
                assert(s.to_set().contains(x));
                let j = choose|j: int| 0 <= j < s.len() && s[j] == x;
                assert(j != 0);
                assert(s1[j - 1] == x);
            }
        }
        lemma_sorted_unique(s1, t1, lt);
        assert(s =~= seq![s[0]] + s1);
        assert(t =~= seq![t[0]] + t1);
    }
}

/// Compares two byte strings in the order of `bytes_lt`.
pub fn compare_bytes(a: &[u8], b: &[u8]) -> (res: Order)
    ensures
        res is Less <==> bytes_lt(a@, b@),
        res is Equal <==> a@ == b@,
        res is Greater <==> bytes_lt(b@, a@),
{
    proof {
        lemma_field_order_strict_total();
        assert(field_order()(a@, b@) == bytes_lt(a@, b@));
        assert(field_order()(b@, a@) == bytes_lt(b@, a@));
        assert(field_order()(a@, a@) == bytes_lt(a@, a@));
    }
    let mut i: usize = 0;
    while i < a.len() && i < b.len()
        invariant
            i <= a@.len(),
            i <= b@.len(),
            a@.take(i as int) == b@.take(i as int),
        decreases a@.len() - i,
    {
        if a[i] != b[i] {
            proof {
                lemma_lex_skip_common(a@, b@, i as int, byte_order());
                lemma_lex_skip_common(b@, a@, i as int, byte_order());
                assert(a@.skip(i as int)[0] == a@[i as int]);
                assert(b@.skip(i as int)[0] == b@[i as int]);
                assert(a@ != b@);
            }
            if a[i] < b[i] {
                return Order::Less;
            } else {
                return Order::Greater;
            }
        }
        proof {
            assert(a@.take(i + 1) =~= a@.take(i as int).push(a@[i as int]));
            assert(b@.take(i + 1) =~= b@.take(i as int).push(b@[i as int]));
        }
        i = i + 1;
    }
    proof {
        lemma_lex_skip_common(a@, b@, i as int, byte_order());
        lemma_lex_skip_common(b@, a@, i as int, byte_order());
        if i == a.len() && i == b.len() {
            assert(a@ =~= a@.take(i as int));
            assert(b@ =~= b@.take(i as int));
        } else if i == a.len() {
            assert(a@.len() != b@.len());
        } else {
            assert(a@.len() != b@.len());
        }
    }
    if a.len() == b.len() {
        Order::Equal
    } else if a.len() < b.len() {
        Order::Less
    } else {
        Order::Greater
    }
}


/// Compares two keys in the order of `key_lt`.
pub fn compare_keys(a: &Vec<Vec<u8>>, b: &Vec<Vec<u8>>) -> (res: Order)
    ensures
        res is Less <==> key_lt(key_view(*a), key_view(*b)),
        res is Equal <==> key_view(*a) == key_view(*b),
        res is Greater <==> key_lt(key_view(*b), key_view(*a)),
{
    let ghost ka = key_view(*a);
    let ghost kb = key_view(*b);
    proof {
        lemma_key_order_strict_total();
        assert(key_order()(ka, kb) == key_lt(ka, kb));
        assert(key_order()(kb, ka) == key_lt(kb, ka));
        assert(key_order()(ka, ka) == key_lt(ka, ka));
        lemma_field_order_strict_total();
    }
    let mut i: usize = 0;
    while i < a.len() && i < b.len()
        invariant
            i <= a@.len(),
            i <= b@.len(),
            ka == key_view(*a),
            kb == key_view(*b),
            ka.take(i as int) == kb.take(i as int),
            strict_total(field_order()),
        decreases a@.len() - i,
    {
        let c = compare_bytes(a[i].as_slice(), b[i].as_slice());
        match c {
            Order::Equal => {},
            _ => {
                proof {
                    lemma_lex_skip_common(ka, kb, i as int, field_order());
                    lemma_lex_skip_common(kb, ka, i as int, field_order());
                    assert(ka.skip(i as int)[0] == ka[i as int]);
                    assert(kb.skip(i as int)[0] == kb[i as int]);
                    assert(ka[i as int] == a@[i as int]@);
                    assert(kb[i as int] == b@[i as int]@);
                    assert(ka != kb);
                    assert(field_order()(ka[i as int], kb[i as int]) == bytes_lt(ka[i as int], kb[i as int]));
                    assert(field_order()(kb[i as int], ka[i as int]) == bytes_lt(kb[i as int], ka[i as int]));
                }
                return c;
            },
        }
        proof {
            assert(ka.take(i + 1) =~= ka.take(i as int).push(ka[i as int]));
            assert(kb.take(i + 1) =~= kb.take(i as int).push(kb[i as int]));
        }
        i = i + 1;
    }
    proof {
        lemma_lex_skip_common(ka, kb, i as int, field_order());
        lemma_lex_skip_common(kb, ka, i as int, field_order());
        if i == a.len() && i == b.len() {
            assert(ka =~= ka.take(i as int));
            assert(kb =~= kb.take(i as int));
        } else {
            assert(ka.len() != kb.len());
        }
    }
    if a.len() == b.len() {
        Order::Equal
    } else if a.len() < b.len() {
        Order::Less
    } else {
        Order::Greater
    }
}

/// Adds a key to a strictly sorted vector of keys, unless it is already there.
pub fn insert_sorted(set: &mut Vec<Vec<Vec<u8>>>, key: Vec<Vec<u8>>)
    requires
        sorted_by(keys_view(old(set)@), key_order()),
    ensures
        sorted_by(keys_view(final(set)@), key_order()),
        keys_view(final(set)@).to_set() == keys_view(old(set)@).to_set().insert(key_view(key)),
{
    let ghost k = key_view(key);
    let ghost before = keys_view(set@);
    proof {
        lemma_key_order_strict_total();
    }
    let mut i: usize = 0;
    while i < set.len()
        invariant
            i <= set@.len(),
            set@ == old(set)@,
            before == keys_view(set@),
            k == key_view(key),
            forall|j: int| 0 <= j < i ==> key_lt(#[trigger] before[j], k),
            sorted_by(before, key_order()),
            strict_total(key_order()),
        ensures
            i <= set@.len(),
            set@ == old(set)@,
            forall|j: int| 0 <= j < i ==> key_lt(#[trigger] before[j], k),
            i < set@.len() ==> key_lt(k, before[i as int]),
        decreases set@.len() - i,
    {
        match compare_keys(&set[i], &key) {
            Order::Less => {},
            Order::Equal => {
                proof {
                    assert(before[i as int] == k);
                    assert(before.to_set().insert(k) =~= before.to_set());
                }
                return;
            },
            Order::Greater => {
                break;
            },
        }
        i = i + 1;
    }
    set.insert(i, key);
    proof {
        let after = keys_view(set@);
        assert(after =~= before.insert(i as int, k));
        lemma_key_order_strict_total();
        assert forall|a: int, b: int| 0 <= a < b < after.len() implies #[trigger] key_order()(after[a], after[b]) by {
            assert forall|x: int, y: int| 0 <= x < y < before.len() implies key_lt(before[x], before[y]) by {
                assert(key_order()(before[x], before[y]));
            }
            assert forall|x: Seq<Seq<u8>>, y: Seq<Seq<u8>>, z: Seq<Seq<u8>>| key_lt(x, y) && key_lt(y, z) implies key_lt(x, z) by {
                assert(key_order()(x, y) && key_order()(y, z));
            }
            let lhs = if a < i { before[a] } else if a == i { k } else { before[a - 1] };
            let rhs = if b < i { before[b] } else if b == i { k } else { before[b - 1] };
            assert(after[a] == lhs);
            assert(after[b] == rhs);
            if b <= i {
            } else if a < i {
                assert(key_lt(k, before[i as int]));
                if b - 1 > i {
                    assert(key_lt(before[i as int], before[b - 1]));
                }
                assert(key_lt(k, before[b - 1]));
            } else if a == i {
                if b - 1 > i {
                    assert(key_lt(before[i as int], before[b - 1]));
                }
            }
            assert(key_lt(lhs, rhs));
        }
        assert(after.to_set() =~= before.to_set().insert(k)) by {
            assert forall|x: Seq<Seq<u8>>| after.to_set().contains(x) implies before.to_set().insert(k).contains(x) by {
                let j = choose|j: int| 0 <= j < after.len() && after[j] == x;
                if j < i {
                    assert(before[j] == x);
                } else if j > i {
                    assert(before[j - 1] == x);
                }
            }
            assert forall|x: Seq<Seq<u8>>| before.to_set().insert(k).contains(x) implies after.to_set().contains(x) by {
                if x == k {
                    assert(after[i as int] == k);
                } else {
                    let j = choose|j: int| 0 <= j < before.len() && before[j] == x;
                    if j < i {
                        assert(after[j] == x);
                    } else {
                        assert(after[j + 1] == x);
                    }
                }
            }
        }
    }
}

} // verus!
