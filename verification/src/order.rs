use vstd::prelude::*;

verus! {

/// Values ordered by a start time.
pub trait Keyed {
    /// The start time, in nanoseconds.
    spec fn key(&self) -> nat;
}

/// Values whose start time can be read.
pub trait Timed: Keyed {
    fn start_nanos(&self) -> (n: u128)
        ensures
            n == self.key(),
    ;
}

/// How many values at the front of `s` start before `k`: in a sorted `s`,
/// where a value starting at `k` goes ahead of the ones that start as late.
pub open spec fn lower_pos<T: Keyed>(s: Seq<T>, k: nat) -> nat
    decreases s.len(),
{
    if s.len() > 0 && s[0].key() < k {
        1 + lower_pos(s.drop_first(), k)
    } else {
        0
    }
}

/// `s` with `x` put ahead of the values that start no earlier than it.
pub open spec fn insert_by_start<T: Keyed>(s: Seq<T>, x: T) -> Seq<T> {
    s.insert(lower_pos(s, x.key()) as int, x)
}

/// `s` sorted by start time, values that start together kept in their order:
/// what `slice::sort_by_key` gives with the start as key.
pub open spec fn sort_by_start<T: Keyed>(s: Seq<T>) -> Seq<T>
    decreases s.len(),
{
    if s.len() == 0 {
        s
    } else {
        insert_by_start(sort_by_start(s.drop_first()), s[0])
    }
}

/// Whether `s` is in order of start time.
pub open spec fn sorted_by_start<T: Keyed>(s: Seq<T>) -> bool {
    forall|i: int, j: int| 0 <= i <= j < s.len() ==> s[i].key() <= s[j].key()
}

pub proof fn lemma_lower_pos<T: Keyed>(s: Seq<T>, k: nat)
    ensures
        lower_pos(s, k) <= s.len(),
        forall|i: int| 0 <= i < lower_pos(s, k) ==> (#[trigger] s[i]).key() < k,
        lower_pos(s, k) < s.len() ==> s[lower_pos(s, k) as int].key() >= k,
    decreases s.len(),
{
    if s.len() > 0 && s[0].key() < k {
        lemma_lower_pos(s.drop_first(), k);
        assert forall|i: int| 0 <= i < lower_pos(s, k) implies (#[trigger] s[i]).key() < k by {
            if i > 0 {
                assert(s[i] == s.drop_first()[i - 1]);
            }
        }
    }
}

pub proof fn lemma_lower_pos_exact<T: Keyed>(s: Seq<T>, k: nat, p: nat)
    requires
        p <= s.len(),
        forall|i: int| 0 <= i < p ==> (#[trigger] s[i]).key() < k,
        p < s.len() ==> s[p as int].key() >= k,
    ensures
        lower_pos(s, k) == p,
    decreases p,
{
    if p > 0 {
        assert forall|i: int| 0 <= i < p - 1 implies (#[trigger] s.drop_first()[i]).key() < k by {
            assert(s.drop_first()[i] == s[i + 1]);
        }
        lemma_lower_pos_exact(s.drop_first(), k, (p - 1) as nat);
    }
}

/// The values of a sorted sequence from `lower_pos` on start no earlier.
proof fn lemma_lower_pos_sorted<T: Keyed>(s: Seq<T>, k: nat)
    requires
        sorted_by_start(s),
    ensures
        forall|i: int| lower_pos(s, k) <= i < s.len() ==> (#[trigger] s[i]).key() >= k,
{
    lemma_lower_pos(s, k);
    let p = lower_pos(s, k) as int;
    assert forall|i: int| p <= i < s.len() implies (#[trigger] s[i]).key() >= k by {
        assert(s[p].key() <= s[i].key());
    }
}

/// Sorting gives a sequence in order of start time.
pub proof fn lemma_sort_sorted<T: Keyed>(s: Seq<T>)
    ensures
        sorted_by_start(sort_by_start(s)),
        sort_by_start(s).len() == s.len(),
    decreases s.len(),
{
    if s.len() > 0 {
        let t = sort_by_start(s.drop_first());
        lemma_sort_sorted(s.drop_first());
        let x = s[0];
        let p = lower_pos(t, x.key()) as int;
        lemma_lower_pos(t, x.key());
        lemma_lower_pos_sorted(t, x.key());
        let u = t.insert(p, x);
        assert forall|i: int, j: int| 0 <= i <= j < u.len() implies u[i].key() <= u[j].key() by {
            if i < p && j < p {
            } else if i < p && j == p {
            } else if i < p && j > p {
                assert(u[j] == t[j - 1]);
            } else if i == p && j == p {
            } else if i == p {
                assert(u[j] == t[j - 1]);
            } else {
                assert(u[i] == t[i - 1]);
                assert(u[j] == t[j - 1]);
            }
        }
    }
}

/// Sorting keeps every value, as often as it occurs.
pub proof fn lemma_sort_permutes<T: Keyed>(s: Seq<T>)
    ensures
        sort_by_start(s).to_multiset() == s.to_multiset(),
    decreases s.len(),
{
    broadcast use vstd::seq_lib::group_to_multiset_ensures;
    if s.len() > 0 {
        let t = sort_by_start(s.drop_first());
        lemma_sort_permutes(s.drop_first());
        lemma_sort_sorted(s.drop_first());
        let x = s[0];
        let p = lower_pos(t, x.key()) as int;
        lemma_lower_pos(t, x.key());
        assert(t.insert(p, x) =~= t.take(p) + (seq![x] + t.skip(p)));
        assert(t =~= t.take(p) + t.skip(p));
        vstd::seq_lib::lemma_multiset_commutative(t.take(p), seq![x] + t.skip(p));
        vstd::seq_lib::lemma_multiset_commutative(seq![x], t.skip(p));
        vstd::seq_lib::lemma_multiset_commutative(t.take(p), t.skip(p));
        assert(s =~= seq![x] + s.drop_first());
        vstd::seq_lib::lemma_multiset_commutative(seq![x], s.drop_first());
    }
}

/// Sorting commutes with a map that keeps start times.
pub proof fn lemma_sort_map<A: Keyed, B: Keyed>(s: Seq<A>, f: spec_fn(A) -> B)
    requires
        forall|x: A| (#[trigger] f(x)).key() == x.key(),
    ensures
        sort_by_start(s).map_values(f) == sort_by_start(s.map_values(f)),
    decreases s.len(),
{
    if s.len() > 0 {
        lemma_sort_map(s.drop_first(), f);
        assert(s.map_values(f).drop_first() =~= s.drop_first().map_values(f));
        let t = sort_by_start(s.drop_first());
        let tm = t.map_values(f);
        let x = s[0];
        lemma_lower_pos_map(t, f, x.key());
        lemma_lower_pos(t, x.key());
        assert(f(x).key() == x.key());
        let p = lower_pos(t, x.key()) as int;
        assert forall|i: int| 0 <= i < t.len() + 1 implies #[trigger] t.insert(p, x).map_values(
            f,
        )[i] == tm.insert(p, f(x))[i] by {
            if i < p {
            } else if i == p {
            } else {
                assert(t.insert(p, x)[i] == t[i - 1]);
            }
        }
        assert(t.insert(lower_pos(t, x.key()) as int, x).map_values(f) =~= tm.insert(
            lower_pos(tm, f(x).key()) as int,
            f(x),
        ));
    }
}

proof fn lemma_lower_pos_map<A: Keyed, B: Keyed>(s: Seq<A>, f: spec_fn(A) -> B, k: nat)
    requires
        forall|x: A| (#[trigger] f(x)).key() == x.key(),
    ensures
        lower_pos(s.map_values(f), k) == lower_pos(s, k),
    decreases s.len(),
{
    if s.len() > 0 {
        assert(s.map_values(f).drop_first() =~= s.drop_first().map_values(f));
        lemma_lower_pos_map(s.drop_first(), f, k);
        assert(s.map_values(f)[0] == f(s[0]));
    }
}

/// `v` sorted by start time, as `sort_by_start` says.
pub fn sort_by_start_vec<T: Timed>(v: Vec<T>) -> (r: Vec<T>)
    ensures
        r@ == sort_by_start(v@),
{
    let ghost orig = v@;
    let mut v = v;
    let mut r: Vec<T> = Vec::new();
    assert(orig.skip(orig.len() as int) =~= Seq::<T>::empty());
    while v.len() > 0
        invariant
            v.len() <= orig.len(),
            v@ == orig.take(v.len() as int),
            r@ == sort_by_start(orig.skip(v.len() as int)),
        decreases v.len(),
    {
        let ghost n = v.len() as int;
        let x = match v.pop() {
            Some(x) => x,
            None => {
                return r;
            },
        };
        assert(x == orig[n - 1]);
        assert(v@ =~= orig.take(n - 1));
        let key = x.start_nanos();
        let mut p: usize = 0;
        while p < r.len() && r[p].start_nanos() < key
            invariant
                p <= r.len(),
                forall|i: int| 0 <= i < p ==> (#[trigger] r@[i]).key() < key,
            decreases r.len() - p,
        {
            p = p + 1;
        }
        proof {
            lemma_lower_pos_exact(r@, x.key(), p as nat);
            assert(orig.skip(n - 1).drop_first() =~= orig.skip(n));
            assert(orig.skip(n - 1)[0] == x);
        }
        r.insert(p, x);
    }
    assert(orig.skip(0) =~= orig);
    r
}

} // verus!
