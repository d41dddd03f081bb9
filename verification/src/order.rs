//! Sorting by the natural order.
//!
//! Insertion sorts for the value shapes the library orders: file and entry
//! names, and named byte entries.  Each sort returns a sequence that is a
//! permutation of its input and adjacently ordered by the natural
//! comparison.

use vstd::prelude::*;
use core::cmp::Ordering;

use crate::natural::{natural_cmp, natural_cmp_spec, lemma_natural_cmp_antisymmetric};

verus! {

/// Adjacent natural order over a sequence of strings.
pub open spec fn sorted_names(s: Seq<Seq<char>>) -> bool {
    forall|k: int|
        0 <= k && k + 1 < s.len() ==> natural_cmp_spec(#[trigger] s[k], s[k + 1])
            != Ordering::Greater
}

pub(crate) proof fn lemma_insert_multiset<T>(s: Seq<T>, p: int, x: T)
    requires
        0 <= p <= s.len(),
    ensures
        s.insert(p, x).to_multiset() =~= s.to_multiset().insert(x),
    decreases s.len() - p,
{
    broadcast use vstd::seq_lib::group_to_multiset_ensures;

    let t = s.insert(p, x);
    assert(t.remove(p) =~= s);
    assert(t[p] == x);
    assert(t.remove(p).to_multiset() =~= t.to_multiset().remove(x));
    assert(t.to_multiset().contains(x)) by {
        assert(t[p] == x);
        assert(t.contains(x));
    }
    assert(t.to_multiset() =~= t.to_multiset().remove(x).insert(x));
}

#[verifier::rlimit(100)]
#[verifier::spinoff_prover]
pub(crate) proof fn lemma_insert_sorted_names(ov: Seq<Seq<char>>, itemv: Seq<char>, p: int)
    requires
        0 <= p <= ov.len(),
        sorted_names(ov),
        forall|k: int| p <= k < ov.len() ==> natural_cmp_spec(#[trigger] ov[k], itemv) == Ordering::Greater,
        p > 0 ==> natural_cmp_spec(ov[p - 1], itemv) != Ordering::Greater,
    ensures
        sorted_names(ov.insert(p, itemv)),
        ov.insert(p, itemv).to_multiset() == ov.to_multiset().insert(itemv),
{
    lemma_insert_multiset(ov, p, itemv);
    ov.insert_ensures(p, itemv);
    let nv = ov.insert(p, itemv);
    assert forall|k: int|
        0 <= k && k + 1 < nv.len() implies natural_cmp_spec(#[trigger] nv[k], nv[k + 1])
        != Ordering::Greater by {
        if k + 1 < p {
            assert(nv[k] == ov[k] && nv[k + 1] == ov[k + 1]);
        } else if k + 1 == p {
            assert(nv[k] == ov[k] && nv[k + 1] == itemv);
        } else if k == p {
            assert(nv[k] == itemv && nv[k + 1] == ov[k]);
            assert(natural_cmp_spec(ov[k], itemv) == Ordering::Greater);
            lemma_natural_cmp_antisymmetric(ov[k], itemv);
        } else {
            assert(nv[k] == ov[k - 1] && nv[k + 1] == ov[k]);
        }
    }
}

/// Insert `item` into the already-ordered `out`, keeping it ordered.
#[verifier::rlimit(100)]
#[verifier::spinoff_prover]
fn insert_name_sorted(out: &mut Vec<String>, item: String)
    requires
        sorted_names(old(out).deep_view()),
    ensures
        sorted_names(final(out).deep_view()),
        final(out).deep_view().to_multiset() == old(out).deep_view().to_multiset().insert(item@),
{
    let ghost ov = out.deep_view();
    let mut p: usize = out.len();
    loop
        invariant
            p <= out.len(),
            out@ == old(out)@,
            ov == out.deep_view(),
            sorted_names(ov),
            forall|k: int|
                p <= k < ov.len() ==> natural_cmp_spec(#[trigger] ov[k], item@)
                    == Ordering::Greater,
        ensures
            p <= out.len(),
            out@ == old(out)@,
            forall|k: int|
                p <= k < ov.len() ==> natural_cmp_spec(#[trigger] ov[k], item@)
                    == Ordering::Greater,
            p > 0 ==> natural_cmp_spec(ov[p - 1], item@) != Ordering::Greater,
        decreases p,
    {
        if p == 0 {
            break ;
        }
        let c = natural_cmp(out[p - 1].as_str(), item.as_str());
        proof {
            assert(out@[p - 1]@ == ov[p - 1]);
        }
        if !matches!(c, Ordering::Greater) {
            break ;
        }
        p = p - 1;
    }
    let ghost itemv = item@;
    proof {
        lemma_insert_sorted_names(ov, itemv, p as int);
    }
    out.insert(p, item);
    proof {
        assert(out@ =~= old(out)@.insert(p as int, item));
        let nv = out.deep_view();
        assert(nv =~= ov.insert(p as int, itemv)) by {
            assert(nv.len() == ov.len() + 1);
            assert forall|k: int| 0 <= k < nv.len() implies nv[k] == ov.insert(p as int, itemv)[k] by {
                assert(nv[k] == out@[k]@);
                if k < p {
                    assert(out@[k] == old(out)@[k]);
                } else if k == p {
                    assert(out@[k] == item);
                } else {
                    assert(out@[k] == old(out)@[k - 1]);
                }
            }
        }
    }
}

/// The name-and-bytes view of an entry list.
pub open spec fn pair_views(s: Seq<(String, Vec<u8>)>) -> Seq<(Seq<char>, Seq<u8>)> {
    s.map_values(|p: (String, Vec<u8>)| (p.0@, p.1@))
}

/// The names of an entry list, in order.
pub open spec fn pair_names(s: Seq<(Seq<char>, Seq<u8>)>) -> Seq<Seq<char>> {
    s.map_values(|p: (Seq<char>, Seq<u8>)| p.0)
}

/// Adjacent natural order of an entry list, by name.
pub open spec fn sorted_pairs(s: Seq<(Seq<char>, Seq<u8>)>) -> bool {
    sorted_names(pair_names(s))
}

/// Insert `item` into the already-ordered entry list `out`.
#[verifier::rlimit(100)]
#[verifier::spinoff_prover]
fn insert_pair_sorted(out: &mut Vec<(String, Vec<u8>)>, item: (String, Vec<u8>))
    requires
        sorted_pairs(pair_views(old(out)@)),
    ensures
        sorted_pairs(pair_views(final(out)@)),
        pair_views(final(out)@).to_multiset() == pair_views(old(out)@).to_multiset().insert(
            (item.0@, item.1@),
        ),
        pair_names(pair_views(final(out)@)).to_multiset() == pair_names(
            pair_views(old(out)@),
        ).to_multiset().insert(item.0@),
{
    let ghost ov = pair_views(out@);
    let ghost keys = pair_names(ov);
    let mut p: usize = out.len();
    loop
        invariant
            p <= out.len(),
            out@ == old(out)@,
            ov == pair_views(out@),
            keys == pair_names(ov),
            sorted_pairs(ov),
            forall|k: int|
                p <= k < keys.len() ==> natural_cmp_spec(#[trigger] keys[k], item.0@)
                    == Ordering::Greater,
        ensures
            p <= out.len(),
            out@ == old(out)@,
            forall|k: int|
                p <= k < keys.len() ==> natural_cmp_spec(#[trigger] keys[k], item.0@)
                    == Ordering::Greater,
            p > 0 ==> natural_cmp_spec(keys[p - 1], item.0@) != Ordering::Greater,
        decreases p,
    {
        if p == 0 {
            break ;
        }
        let c = natural_cmp(out[p - 1].0.as_str(), item.0.as_str());
        proof {
            assert(keys[p - 1] == out@[p - 1].0@);
        }
        if !matches!(c, Ordering::Greater) {
            break ;
        }
        p = p - 1;
    }
    let ghost itemv = (item.0@, item.1@);
    let ghost ow = out@;
    proof {
        lemma_insert_sorted_names(keys, itemv.0, p as int);
        lemma_insert_multiset(ov, p as int, itemv);
        lemma_insert_multiset(keys, p as int, itemv.0);
        lemma_pair_views_insert(ow, p as int, item);
    }
    out.insert(p, item);
    proof {
        assert(out@ == ow.insert(p as int, item));
    }
}

proof fn lemma_pair_views_insert(ow: Seq<(String, Vec<u8>)>, p: int, item: (String, Vec<u8>))
    requires
        0 <= p <= ow.len(),
    ensures
        pair_views(ow.insert(p, item)) == pair_views(ow).insert(p, (item.0@, item.1@)),
        pair_names(pair_views(ow).insert(p, (item.0@, item.1@))) == pair_names(
            pair_views(ow),
        ).insert(p, item.0@),
{
    let itemv = (item.0@, item.1@);
    let ov = pair_views(ow);
    let keys = pair_names(ov);
    ow.insert_ensures(p, item);
    ov.insert_ensures(p, itemv);
    keys.insert_ensures(p, itemv.0);
    assert(pair_views(ow.insert(p, item)) =~= ov.insert(p, itemv)) by {
        assert forall|k: int| 0 <= k < ow.len() + 1 implies pair_views(ow.insert(p, item))[k]
            == ov.insert(p, itemv)[k] by {
            if k < p {
                assert(ow.insert(p, item)[k] == ow[k]);
            } else if k == p {
                assert(ow.insert(p, item)[k] == item);
            } else {
                assert(ow.insert(p, item)[k] == ow[k - 1]);
            }
        }
    }
    assert(pair_names(ov.insert(p, itemv)) =~= keys.insert(p, itemv.0)) by {
        assert forall|k: int| 0 <= k < ov.len() + 1 implies pair_names(ov.insert(p, itemv))[k]
            == keys.insert(p, itemv.0)[k] by {
            assert(pair_names(ov.insert(p, itemv))[k] == ov.insert(p, itemv)[k].0);
            if k < p {
                assert(ov.insert(p, itemv)[k] == ov[k]);
            } else if k == p {
                assert(ov.insert(p, itemv)[k] == itemv);
            } else {
                assert(ov.insert(p, itemv)[k] == ov[k - 1]);
            }
        }
    }
}

/// The entries of `v`, ordered by the natural comparison of their names.
pub fn sort_pairs(v: Vec<(String, Vec<u8>)>) -> (r: Vec<(String, Vec<u8>)>)
    ensures
        sorted_pairs(pair_views(r@)),
        pair_views(r@).to_multiset() == pair_views(v@).to_multiset(),
        pair_names(pair_views(r@)).to_multiset() == pair_names(pair_views(v@)).to_multiset(),
{
    let mut v = v;
    let n = v.len();
    let ghost iv = pair_views(v@);
    let mut r: Vec<(String, Vec<u8>)> = Vec::new();
    let mut i: usize = 0;
    proof {
        assert(pair_views(r@) =~= Seq::<(Seq<char>, Seq<u8>)>::empty());
        assert(pair_names(pair_views(r@)) =~= Seq::<Seq<char>>::empty());
        assert(iv.take(0) =~= Seq::<(Seq<char>, Seq<u8>)>::empty());
        assert(pair_names(iv.take(0)) =~= Seq::<Seq<char>>::empty());
        assert(pair_views(r@).to_multiset() =~= iv.take(0).to_multiset());
        assert(pair_names(pair_views(r@)).to_multiset() =~= pair_names(
            iv.take(0),
        ).to_multiset());
        assert(iv.skip(0) =~= iv);
    }
    while v.len() > 0
        invariant
            iv.len() == n,
            i + v@.len() == n,
            pair_views(v@) == iv.skip(i as int),
            sorted_pairs(pair_views(r@)),
            pair_views(r@).to_multiset() == iv.take(i as int).to_multiset(),
            pair_names(pair_views(r@)).to_multiset() == pair_names(
                iv.take(i as int),
            ).to_multiset(),
        decreases v@.len(),
    {
        let ghost vb = v@;
        let item = v.remove(0);
        proof {
            assert(v@ == vb.remove(0));
            assert(item == vb[0]);
            assert(pair_views(vb)[0] == iv.skip(i as int)[0]);
            assert((item.0@, item.1@) == iv[i as int]);
            assert(pair_views(v@) =~= iv.skip(i as int + 1)) by {
                vb.remove_ensures(0);
                assert forall|k: int| 0 <= k < v@.len() implies pair_views(v@)[k] == iv.skip(
                    i as int + 1,
                )[k] by {
                    assert(v@[k] == vb[k + 1]);
                    assert(pair_views(vb)[k + 1] == (vb[k + 1].0@, vb[k + 1].1@));
                    assert(pair_views(vb)[k + 1] == iv.skip(i as int)[k + 1]);
                    assert(iv.skip(i as int)[k + 1] == iv[i + 1 + k]);
                }
            }
            assert(iv.take(i + 1) =~= iv.take(i as int).push(iv[i as int]));
            iv.take(i as int).to_multiset_ensures();
            assert(iv.take(i as int).push(iv[i as int]).to_multiset() =~= iv.take(
                i as int,
            ).to_multiset().insert(iv[i as int]));
            assert(pair_names(iv.take(i + 1)) =~= pair_names(iv.take(i as int)).push(
                iv[i as int].0,
            ));
            pair_names(iv.take(i as int)).to_multiset_ensures();
            assert(pair_names(iv.take(i as int)).push(iv[i as int].0).to_multiset()
                =~= pair_names(iv.take(i as int)).to_multiset().insert(iv[i as int].0));
        }
        insert_pair_sorted(&mut r, item);
        i = i + 1;
    }
    proof {
        assert(iv.take(i as int) =~= iv);
    }
    r
}

/// The names of `v`, ordered by the natural comparison.
pub fn sort_names(v: Vec<String>) -> (r: Vec<String>)
    ensures
        sorted_names(r.deep_view()),
        r.deep_view().to_multiset() == v.deep_view().to_multiset(),
{
    broadcast use vstd::seq_lib::group_to_multiset_ensures;

    let mut v = v;
    let ghost iv = v.deep_view();
    let mut r: Vec<String> = Vec::new();
    let mut i: usize = 0;
    let n = v.len();
    proof {
        assert(iv.take(0) =~= Seq::<Seq<char>>::empty());
        assert(Seq::<Seq<char>>::empty().to_multiset() =~= r.deep_view().to_multiset());
        assert(r.deep_view() =~= Seq::<Seq<char>>::empty());
    }
    while i < n
        invariant
            i <= n,
            n == v@.len(),
            v.deep_view() == iv,
            sorted_names(r.deep_view()),
            r.deep_view().to_multiset() == iv.take(i as int).to_multiset(),
        decreases n - i,
    {
        let item = v[i].clone();
        proof {
            assert(item@ == iv[i as int]);
            assert(iv.take(i + 1) =~= iv.take(i as int).push(iv[i as int]));
            iv.take(i as int).to_multiset_ensures();
            assert(iv.take(i as int).push(iv[i as int]).to_multiset() =~= iv.take(
                i as int,
            ).to_multiset().insert(iv[i as int]));
        }
        insert_name_sorted(&mut r, item);
        i = i + 1;
    }
    proof {
        assert(iv.take(n as int) =~= iv);
    }
    r
}


/// Whether some element of `names` reads `nm`.
pub open spec fn has_name(names: Seq<String>, nm: Seq<char>) -> bool {
    exists|i: int| 0 <= i < names.len() && nm == #[trigger] names[i]@
}

/// Whether `name` occurs in `names`.
pub fn contains_name(names: &Vec<String>, name: &Vec<char>) -> (r: bool)
    ensures
        r == has_name(names@, name@),
{
    let mut i: usize = 0;
    while i < names.len()
        invariant
            i <= names@.len(),
            forall|k: int| 0 <= k < i ==> name@ != #[trigger] names@[k]@,
        decreases names@.len() - i,
    {
        let cs = crate::chars::chars_of(names[i].as_str());
        if crate::paths::chars_eq(&cs, name) {
            return true;
        }
        i = i + 1;
    }
    false
}

} // verus!
