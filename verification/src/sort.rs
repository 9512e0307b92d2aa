use vstd::prelude::*;

verus! {

/// Each element is smaller than the next.
pub open spec fn strictly_increasing(s: Seq<u64>) -> bool {
    forall|i: int, j: int| 0 <= i < j < s.len() ==> s[i] < s[j]
}

/// The elements of `s` in increasing order, each once (`s` finite).
pub open spec fn ascending(s: Set<u64>) -> Seq<u64> {
    choose|r: Seq<u64>| strictly_increasing(r) && r.to_set() == s
}

proof fn lemma_increasing_min(s: Seq<u64>)
    requires
        strictly_increasing(s),
        s.len() > 0,
    ensures
        forall|x: u64| s.to_set().contains(x) ==> s[0] <= x,
        forall|x: u64| s.to_set().contains(x) && x != s[0] ==> s.drop_first().to_set().contains(x),
{
    assert forall|x: u64| s.to_set().contains(x) implies s[0] <= x by {
        let k = choose|k: int| 0 <= k < s.len() && s[k] == x;
    }
    assert forall|x: u64| s.to_set().contains(x) && x != s[0] implies s.drop_first().to_set().contains(x) by {
        let k = choose|k: int| 0 <= k < s.len() && s[k] == x;
        assert(k > 0);
        assert(s.drop_first()[k - 1] == x);
    }
}

/// Two increasing sequences with the same elements are equal.
pub proof fn lemma_increasing_unique(a: Seq<u64>, b: Seq<u64>)
    requires
        strictly_increasing(a),
        strictly_increasing(b),
        a.to_set() == b.to_set(),
    ensures
        a == b,
    decreases a.len(),
{
    if a.len() == 0 {
        if b.len() > 0 {
            assert(b.to_set().contains(b[0]));
        }
        assert(a =~= b);
    } else {
        if b.len() == 0 {
            assert(a.to_set().contains(a[0]));
        }
        assert(a.to_set().contains(a[0]));
        assert(b.to_set().contains(b[0]));
        lemma_increasing_min(a);
        lemma_increasing_min(b);
        assert(a[0] == b[0]);
        let a1 = a.drop_first();
        let b1 = b.drop_first();
        assert forall|x: u64| a1.to_set().contains(x) <==> b1.to_set().contains(x) by {
            if a1.to_set().contains(x) {
                let k = choose|k: int| 0 <= k < a1.len() && a1[k] == x;
                assert(a[k + 1] == x);
                assert(a.to_set().contains(x));
                assert(x != a[0]);
            }
            if b1.to_set().contains(x) {
                let k = choose|k: int| 0 <= k < b1.len() && b1[k] == x;
                assert(b[k + 1] == x);
                assert(b.to_set().contains(x));
                assert(x != b[0]);
            }
        }
        assert(a1.to_set() =~= b1.to_set());
        lemma_increasing_unique(a1, b1);
        assert(a =~= b) by {
            assert forall|i: int| 0 <= i < a.len() implies a[i] == b[i] by {
                if i > 0 {
                    assert(a[i] == a1[i - 1]);
                    assert(b[i] == b1[i - 1]);
                }
            }
        }
    }
}

/// An increasing sequence is the ascending listing of its elements.
pub proof fn lemma_ascending(s: Seq<u64>)
    requires
        strictly_increasing(s),
    ensures
        ascending(s.to_set()) == s,
{
    let r = ascending(s.to_set());
    assert(strictly_increasing(s) && s.to_set() == s.to_set());
    lemma_increasing_unique(r, s);
}

fn merge(a: Vec<u64>, b: Vec<u64>) -> (r: Vec<u64>)
    requires
        strictly_increasing(a@),
        strictly_increasing(b@),
        a@.to_set().disjoint(b@.to_set()),
    ensures
        strictly_increasing(r@),
        r@.to_set() == a@.to_set() + b@.to_set(),
        r@.len() == a@.len() + b@.len(),
{
    let mut r: Vec<u64> = Vec::new();
    let mut i: usize = 0;
    let mut j: usize = 0;
    while i < a.len() || j < b.len()
        invariant
            0 <= i <= a@.len(),
            0 <= j <= b@.len(),
            strictly_increasing(a@),
            strictly_increasing(b@),
            a@.to_set().disjoint(b@.to_set()),
            strictly_increasing(r@),
            r@.len() == i + j,
            r@.to_set() == a@.take(i as int).to_set() + b@.take(j as int).to_set(),
            forall|k: int| 0 <= k < r@.len() && i < a@.len() ==> r@[k] < a@[i as int],
            forall|k: int| 0 <= k < r@.len() && j < b@.len() ==> r@[k] < b@[j as int],
        decreases a@.len() + b@.len() - i - j,
    {
        let take_a = if i < a.len() && j < b.len() {
            proof {
                assert(a@.to_set().contains(a@[i as int]));
                assert(b@.to_set().contains(b@[j as int]));
            }
            a[i] < b[j]
        } else {
            i < a.len()
        };
        let ghost before = r@;
        if take_a {
            r.push(a[i]);
            proof {
                assert(a@.take(i + 1) =~= a@.take(i as int).push(a@[i as int]));
                assert(r@.to_set() =~= a@.take(i + 1).to_set() + b@.take(j as int).to_set()) by {
                    assert(r@ == before.push(a@[i as int]));
                    before.lemma_push_to_set_commute(a@[i as int]);
                    a@.take(i as int).lemma_push_to_set_commute(a@[i as int]);
                }
            }
            i = i + 1;
        } else {
            r.push(b[j]);
            proof {
                assert(b@.take(j + 1) =~= b@.take(j as int).push(b@[j as int]));
                assert(r@.to_set() =~= a@.take(i as int).to_set() + b@.take(j + 1).to_set()) by {
                    assert(r@ == before.push(b@[j as int]));
                    before.lemma_push_to_set_commute(b@[j as int]);
                    b@.take(j as int).lemma_push_to_set_commute(b@[j as int]);
                }
            }
            j = j + 1;
        }
    }
    proof {
        assert(a@.take(i as int) =~= a@);
        assert(b@.take(j as int) =~= b@);
    }
    r
}

/// Sorts distinct keys into increasing order.
pub fn sort_distinct(v: Vec<u64>) -> (r: Vec<u64>)
    requires
        v@.no_duplicates(),
    ensures
        strictly_increasing(r@),
        r@.to_set() == v@.to_set(),
        r@.len() == v@.len(),
    decreases v@.len(),
{
    let n = v.len();
    if n <= 1 {
        proof {
            assert(strictly_increasing(v@));
        }
        return v;
    }
    let mut left = v;
    let ghost whole = left@;
    let right = left.split_off(n / 2);
    proof {
        assert(whole =~= left@ + right@);
        assert(left@.no_duplicates());
        assert(right@.no_duplicates()) by {
            assert forall|i: int, j: int| 0 <= i < j < right@.len() implies right@[i] != right@[j] by {
                assert(right@[i] == whole[i + n / 2]);
                assert(right@[j] == whole[j + n / 2]);
            }
        }
    }
    let sl = sort_distinct(left);
    let sr = sort_distinct(right);
    proof {
        assert(sl@.to_set().disjoint(sr@.to_set())) by {
            assert forall|x: u64| !(sl@.to_set().contains(x) && sr@.to_set().contains(x)) by {
                if sl@.to_set().contains(x) && sr@.to_set().contains(x) {
                    assert(left@.to_set().contains(x));
                    assert(right@.to_set().contains(x));
                    let p = choose|p: int| 0 <= p < left@.len() && left@[p] == x;
                    let q = choose|q: int| 0 <= q < right@.len() && right@[q] == x;
                    assert(whole[p] == x && whole[q + n / 2] == x);
                }
            }
        }
        assert(whole.to_set() =~= left@.to_set() + right@.to_set()) by {
            assert forall|x: u64| whole.to_set().contains(x) <==> (left@.to_set().contains(x) || right@.to_set().contains(x)) by {
                if whole.to_set().contains(x) {
                    let p = choose|p: int| 0 <= p < whole.len() && whole[p] == x;
                    if p < n / 2 {
                        assert(left@[p] == x);
                    } else {
                        assert(right@[p - n / 2] == x);
                    }
                }
                if left@.to_set().contains(x) {
                    let p = choose|p: int| 0 <= p < left@.len() && left@[p] == x;
                    assert(whole[p] == x);
                }
                if right@.to_set().contains(x) {
                    let p = choose|p: int| 0 <= p < right@.len() && right@[p] == x;
                    assert(whole[p + n / 2] == x);
                }
            }
        }
    }
    merge(sl, sr)
}

} // verus!
