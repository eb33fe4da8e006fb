//! Which known connection prices each pair of instance cities.
//!
//! A connection joins two cities, named by their ids, in either direction.
//! The weight of the edge between two cities of the instance is the
//! distance of the last connection listed between them; when there is
//! none, the caller falls back on a distance of its own.

use std::collections::{HashMap, HashSet};
use vstd::prelude::*;

use crate::matrix::{pair_count, row_start, tri_spec, lemma_row_start_step, lemma_tri_index_injective};
use crate::tour::matrix_fits;

verus! {

broadcast use vstd::std_specs::hash::group_hash_axioms;

/// Ids of the cities of the instance, in instance order.
pub open spec fn instance_ids_spec(city_ids: Seq<i32>, instance: Seq<usize>) -> Seq<i32> {
    Seq::new(instance.len(), |k: int| city_ids[instance[k] as int])
}

/// Ids of the cities that the instance lists, in instance order.
pub fn instance_city_ids(city_ids: &[i32], instance: &[usize]) -> (r: Vec<i32>)
    requires
        forall|k: int| 0 <= k < instance@.len() ==> #[trigger] instance@[k] < city_ids@.len(),
    ensures
        r@ == instance_ids_spec(city_ids@, instance@),
        r@.len() == instance@.len(),
        forall|k: int| 0 <= k < instance@.len() ==> #[trigger] r@[k] == city_ids@[instance@[k] as int],
{
    let mut r: Vec<i32> = Vec::new();
    let mut k: usize = 0;
    while k < instance.len()
        invariant
            k <= instance@.len(),
            forall|i: int| 0 <= i < instance@.len() ==> #[trigger] instance@[i] < city_ids@.len(),
            r@ == instance_ids_spec(city_ids@, instance@).take(k as int),
        decreases instance@.len() - k,
    {
        r.push(city_ids[instance[k]]);
        k = k + 1;
        proof {
            assert(r@ =~= instance_ids_spec(city_ids@, instance@).take(k as int));
        }
    }
    proof {
        assert(instance_ids_spec(city_ids@, instance@).take(k as int) =~= instance_ids_spec(
            city_ids@,
            instance@,
        ));
    }
    r
}

/// Entry `k` of the instance's ids is the id of the city at instance
/// position `k`: the pair of positions `(i, j)` is priced by the cities
/// `instance[i]` and `instance[j]`. Two instances that agree at a position
/// give the same id there, whatever the other positions hold.
pub proof fn lemma_instance_ids_follow_positions(
    city_ids: Seq<i32>,
    instance: Seq<usize>,
    other: Seq<usize>,
)
    ensures
        instance_ids_spec(city_ids, instance).len() == instance.len(),
        forall|k: int|
            0 <= k < instance.len() ==> #[trigger] instance_ids_spec(city_ids, instance)[k]
                == city_ids[instance[k] as int],
        forall|k: int|
            0 <= k < instance.len() && k < other.len() && instance[k] == other[k]
                ==> #[trigger] instance_ids_spec(city_ids, instance)[k] == instance_ids_spec(
                city_ids,
                other,
            )[k],
{
}

/// Both ends of the connection are cities of the instance.
pub open spec fn within_instance(ids: Seq<i32>, c: (i32, i32)) -> bool {
    ids.contains(c.0) && ids.contains(c.1)
}

/// Positions, in increasing order, of the connections whose both ends are
/// cities of the instance: the connections that concern the instance.
pub fn sub_connection_indices(instance_ids: &[i32], connections: &[(i32, i32)]) -> (r: Vec<usize>)
    ensures
        forall|a: int, b: int| 0 <= a < b < r@.len() ==> #[trigger] r@[a] < #[trigger] r@[b],
        forall|a: int|
            0 <= a < r@.len() ==> #[trigger] r@[a] < connections@.len() && within_instance(
                instance_ids@,
                connections@[r@[a] as int],
            ),
        forall|k: int|
            0 <= k < connections@.len() && within_instance(instance_ids@, #[trigger] connections@[k])
                ==> r@.contains(k as usize),
{
    let mut ids: HashSet<i32> = HashSet::new();
    let mut i: usize = 0;
    while i < instance_ids.len()
        invariant
            i <= instance_ids@.len(),
            forall|x: i32|
                ids@.contains(x) <==> exists|j: int| 0 <= j < i && #[trigger] instance_ids@[j] == x,
        decreases instance_ids@.len() - i,
    {
        ids.insert(instance_ids[i]);
        i = i + 1;
    }
    proof {
        assert forall|x: i32| ids@.contains(x) <==> instance_ids@.contains(x) by {
            if ids@.contains(x) {
                let j = choose|j: int| 0 <= j < i && #[trigger] instance_ids@[j] == x;
                assert(instance_ids@[j] == x);
            }
        }
    }
    let mut r: Vec<usize> = Vec::new();
    let mut k: usize = 0;
    while k < connections.len()
        invariant
            k <= connections@.len(),
            forall|x: i32| ids@.contains(x) <==> instance_ids@.contains(x),
            forall|a: int, b: int| 0 <= a < b < r@.len() ==> #[trigger] r@[a] < #[trigger] r@[b],
            forall|a: int| 0 <= a < r@.len() ==> #[trigger] r@[a] < k,
            forall|a: int|
                0 <= a < r@.len() ==> within_instance(instance_ids@, connections@[#[trigger] r@[a] as int]),
            forall|j: int|
                0 <= j < k && within_instance(instance_ids@, #[trigger] connections@[j])
                    ==> r@.contains(j as usize),
        decreases connections@.len() - k,
    {
        let (a, b) = connections[k];
        if ids.contains(&a) && ids.contains(&b) {
            let ghost old_r = r@;
            r.push(k);
            proof {
                assert(r@[r@.len() - 1] == k);
                assert forall|j: int|
                    0 <= j < k + 1 && within_instance(instance_ids@, #[trigger] connections@[j])
                        implies r@.contains(j as usize) by {
                    if j == k {
                        assert(r@[r@.len() - 1] == k);
                    } else {
                        assert(old_r.contains(j as usize));
                        let t = choose|t: int| 0 <= t < old_r.len() && old_r[t] == j as usize;
                        assert(r@[t] == old_r[t]);
                    }
                }
            }
        }
        k = k + 1;
    }
    r
}

/// The unordered pair of city ids `{a, b}`, smaller id first.
pub open spec fn pair_key(a: i32, b: i32) -> (i32, i32) {
    if a <= b {
        (a, b)
    } else {
        (b, a)
    }
}

/// Position of the last of the first `upto` connections that joins the
/// cities of `key`, if any.
pub open spec fn last_connection(conns: Seq<(i32, i32)>, key: (i32, i32), upto: int) -> Option<int>
    decreases upto,
{
    if upto <= 0 {
        None
    } else if pair_key(conns[upto - 1].0, conns[upto - 1].1) == key {
        Some(upto - 1)
    } else {
        last_connection(conns, key, upto - 1)
    }
}

/// The connection that prices the edge between the instance positions
/// `i` and `j`: the last one joining their two cities.
pub open spec fn pricing_connection(ids: Seq<i32>, conns: Seq<(i32, i32)>, i: int, j: int) -> Option<
    int,
> {
    last_connection(conns, pair_key(ids[i], ids[j]), conns.len() as int)
}

proof fn lemma_last_connection_matches(conns: Seq<(i32, i32)>, key: (i32, i32), upto: int)
    requires
        upto <= conns.len(),
    ensures
        last_connection(conns, key, upto) matches Some(k) ==> 0 <= k < upto && pair_key(
            conns[k].0,
            conns[k].1,
        ) == key,
    decreases upto,
{
    if upto > 0 {
        lemma_last_connection_matches(conns, key, upto - 1);
    }
}

/// The connection that prices an edge of the instance joins two cities of
/// the instance: it is among the `sub_connection_indices`, so taking the
/// weights from those alone changes nothing.
pub proof fn lemma_pricing_connection_within_instance(
    ids: Seq<i32>,
    conns: Seq<(i32, i32)>,
    i: int,
    j: int,
)
    requires
        0 <= i < j < ids.len(),
    ensures
        pricing_connection(ids, conns, i, j) matches Some(k) ==> 0 <= k < conns.len()
            && within_instance(ids, conns[k]),
{
    let key = pair_key(ids[i], ids[j]);
    lemma_last_connection_matches(conns, key, conns.len() as int);
    if let Some(k) = pricing_connection(ids, conns, i, j) {
        let c = conns[k];
        if c.0 <= c.1 {
            assert(c.0 == key.0 && c.1 == key.1);
        } else {
            assert(c.1 == key.0 && c.0 == key.1);
        }
        assert(ids[i] == key.0 || ids[i] == key.1);
        assert(ids.contains(ids[i]));
        assert(ids.contains(ids[j]));
    }
}

/// Number of a pair of city ids, one to one.
spec fn key_code(key: (i32, i32)) -> int {
    (key.0 + 2147483648) * 4294967296 + (key.1 + 2147483648)
}

proof fn lemma_key_code_injective(x: (i32, i32), y: (i32, i32))
    requires
        key_code(x) == key_code(y),
    ensures
        x == y,
{
}

fn code_of(a: i32, b: i32) -> (r: u64)
    ensures
        r == key_code(pair_key(a, b)),
{
    let (lo, hi) = if a <= b {
        (a, b)
    } else {
        (b, a)
    };
    let x = (lo as i64 + 2147483648) as u64;
    let y = (hi as i64 + 2147483648) as u64;
    x * 4294967296 + y
}

/// For every pair of instance positions `i < j`, stored at the pair's slot
/// of the packed matrix (see `matrix`): the position of the connection that
/// prices the edge between their cities, or `None` when no connection joins
/// them. Of several connections between the same two cities, in either
/// direction, the last one listed counts.
pub fn connection_slots(instance_ids: &[i32], connections: &[(i32, i32)]) -> (r: Vec<Option<usize>>)
    requires
        matrix_fits(instance_ids@.len() as int),
    ensures
        r@.len() == pair_count(instance_ids@.len() as int),
        forall|i: int, j: int|
            0 <= i < j < instance_ids@.len() ==> match #[trigger] r@[tri_spec(
                instance_ids@.len() as int,
                i,
                j,
            )] {
                Some(k) => pricing_connection(instance_ids@, connections@, i, j) == Some(k as int),
                None => pricing_connection(instance_ids@, connections@, i, j) is None,
            },
{
    let mut known: HashMap<u64, usize> = HashMap::new();
    let mut k: usize = 0;
    while k < connections.len()
        invariant
            k <= connections@.len(),
            forall|key: (i32, i32)|
                #![trigger last_connection(connections@, key, k as int)]
                match last_connection(connections@, key, k as int) {
                    Some(c) => known@.contains_key(key_code(key) as u64) && known@[key_code(
                        key,
                    ) as u64] == c,
                    None => !known@.contains_key(key_code(key) as u64),
                },
        decreases connections@.len() - k,
    {
        let (a, b) = connections[k];
        let code = code_of(a, b);
        known.insert(code, k);
        proof {
            let kk = pair_key(a, b);
            assert forall|key: (i32, i32)|
                #![trigger last_connection(connections@, key, k + 1)]
                match last_connection(connections@, key, k + 1) {
                    Some(c) => known@.contains_key(key_code(key) as u64) && known@[key_code(
                        key,
                    ) as u64] == c,
                    None => !known@.contains_key(key_code(key) as u64),
                } by {
                assert(last_connection(connections@, key, k as int) == last_connection(
                    connections@,
                    key,
                    k as int,
                ));
                if key != kk {
                    if key_code(key) as u64 == key_code(kk) as u64 {
                        lemma_key_code_injective(key, kk);
                    }
                }
            }
        }
        k = k + 1;
    }
    let n = instance_ids.len();
    let mut r: Vec<Option<usize>> = Vec::new();
    let ghost nn = n as int;
    proof {
        lemma_tri_index_injective(nn);
    }
    let mut i: usize = 0;
    while i < n
        invariant
            n == instance_ids@.len(),
            nn == n,
            i <= n,
            matrix_fits(nn),
            r@.len() == (if i < n {
                row_start(nn, i as int)
            } else {
                pair_count(nn)
            }),
            forall|key: (i32, i32)|
                #![trigger last_connection(connections@, key, connections@.len() as int)]
                match last_connection(connections@, key, connections@.len() as int) {
                    Some(c) => known@.contains_key(key_code(key) as u64) && known@[key_code(
                        key,
                    ) as u64] == c,
                    None => !known@.contains_key(key_code(key) as u64),
                },
            forall|a: int, b: int|
                0 <= a < b < nn && tri_spec(nn, a, b) < r@.len() ==> match #[trigger] r@[tri_spec(
                    nn,
                    a,
                    b,
                )] {
                    Some(c) => pricing_connection(instance_ids@, connections@, a, b) == Some(
                        c as int,
                    ),
                    None => pricing_connection(instance_ids@, connections@, a, b) is None,
                },
            forall|a: int, b: int|
                0 <= a < b < nn ==> 0 <= #[trigger] tri_spec(nn, a, b) < pair_count(nn),
            forall|a: int, b: int, c: int, d: int|
                0 <= a < b < nn && 0 <= c < d < nn && #[trigger] tri_spec(nn, a, b)
                    == #[trigger] tri_spec(nn, c, d) ==> a == c && b == d,
        decreases n - i,
    {
        let mut j: usize = i + 1;
        while j < n
            invariant
                n == instance_ids@.len(),
                nn == n,
                i < j <= n,
                matrix_fits(nn),
                r@.len() == row_start(nn, i as int) + (j - i - 1),
                forall|key: (i32, i32)|
                    #![trigger last_connection(connections@, key, connections@.len() as int)]
                    match last_connection(connections@, key, connections@.len() as int) {
                        Some(c) => known@.contains_key(key_code(key) as u64) && known@[key_code(
                            key,
                        ) as u64] == c,
                        None => !known@.contains_key(key_code(key) as u64),
                    },
                forall|a: int, b: int|
                    0 <= a < b < nn && tri_spec(nn, a, b) < r@.len() ==> match #[trigger] r@[tri_spec(
                        nn,
                        a,
                        b,
                    )] {
                        Some(c) => pricing_connection(instance_ids@, connections@, a, b) == Some(
                            c as int,
                        ),
                        None => pricing_connection(instance_ids@, connections@, a, b) is None,
                    },
                forall|a: int, b: int|
                    0 <= a < b < nn ==> 0 <= #[trigger] tri_spec(nn, a, b) < pair_count(nn),
                forall|a: int, b: int, c: int, d: int|
                    0 <= a < b < nn && 0 <= c < d < nn && #[trigger] tri_spec(nn, a, b)
                        == #[trigger] tri_spec(nn, c, d) ==> a == c && b == d,
            decreases n - j,
        {
            let code = code_of(instance_ids[i], instance_ids[j]);
            let found = match known.get(&code) {
                Some(c) => Some(*c),
                None => None,
            };
            proof {
                let key = pair_key(instance_ids@[i as int], instance_ids@[j as int]);
                assert(last_connection(connections@, key, connections@.len() as int)
                    == pricing_connection(instance_ids@, connections@, i as int, j as int));
                assert(r@.len() == tri_spec(nn, i as int, j as int));
            }
            r.push(found);
            proof {
                assert forall|a: int, b: int|
                    0 <= a < b < nn && tri_spec(nn, a, b) < r@.len() implies match #[trigger] r@[tri_spec(
                        nn,
                        a,
                        b,
                    )] {
                        Some(c) => pricing_connection(instance_ids@, connections@, a, b) == Some(
                            c as int,
                        ),
                        None => pricing_connection(instance_ids@, connections@, a, b) is None,
                    } by {
                    if tri_spec(nn, a, b) == r@.len() - 1 {
                        assert(tri_spec(nn, a, b) == tri_spec(nn, i as int, j as int));
                    }
                }
            }
            j = j + 1;
        }
        proof {
            lemma_row_start_step(nn, i as int);
            if i + 1 == n {
                assert(row_start(nn, nn - 1) == pair_count(nn)) by {
                    assert((nn - 1) * (2 * nn - (nn - 1) - 1) == nn * (nn - 1)) by (nonlinear_arith);
                }
            }
        }
        i = i + 1;
    }
    proof {
        if n == 0 {
            assert(pair_count(0) == 0);
        }
    }
    r
}

} // verus!
