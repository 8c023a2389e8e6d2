//! Name tables: a dense-ID arena is a vector of names whose index is the ID.
//! First-seen allocation is modeled by `add_names`; lookup by `idx_of`.
use vstd::prelude::*;

verus! {

/// The views of a vector of names.
pub open spec fn names_of(t: Seq<String>) -> Seq<Seq<char>> {
    t.map_values(|s: String| s@)
}

/// No two entries of the table hold the same name.
pub open spec fn distinct(t: Seq<Seq<char>>) -> bool {
    forall|i: int, j: int| 0 <= i < j < t.len() ==> t[i] != t[j]
}

/// The index of `n` in `t`; meaningful when `t` is distinct and contains `n`.
pub open spec fn idx_of(t: Seq<Seq<char>>, n: Seq<char>) -> int {
    choose|i: int| 0 <= i < t.len() && t[i] == n
}

pub proof fn lemma_idx_of(t: Seq<Seq<char>>, n: Seq<char>)
    requires
        distinct(t),
        t.contains(n),
    ensures
        0 <= idx_of(t, n) < t.len(),
        t[idx_of(t, n)] == n,
        forall|i: int| 0 <= i < t.len() && t[i] == n ==> i == idx_of(t, n),
{
    let w = choose|i: int| 0 <= i < t.len() && t[i] == n;
    assert(0 <= w < t.len() && t[w] == n);
    assert forall|i: int| 0 <= i < t.len() && t[i] == n implies i == idx_of(t, n) by {
        if i != idx_of(t, n) {
            if i < idx_of(t, n) {
                assert(t[i] != t[idx_of(t, n)]);
            } else {
                assert(t[idx_of(t, n)] != t[i]);
            }
        }
    }
}

/// Allocate an ID for `n` if it is not yet in the table.
pub open spec fn add_name(t: Seq<Seq<char>>, n: Seq<char>) -> Seq<Seq<char>> {
    if t.contains(n) {
        t
    } else {
        t.push(n)
    }
}

/// Allocate IDs for every name of `ns`, in order.
pub open spec fn add_names(t: Seq<Seq<char>>, ns: Seq<Seq<char>>) -> Seq<Seq<char>>
    decreases ns.len(),
{
    if ns.len() == 0 {
        t
    } else {
        add_name(add_names(t, ns.drop_last()), ns.last())
    }
}

pub proof fn lemma_add_name_facts(t: Seq<Seq<char>>, n: Seq<char>)
    ensures
        distinct(t) ==> distinct(add_name(t, n)),
        forall|x: Seq<char>| add_name(t, n).contains(x) <==> (t.contains(x) || x == n),
        t.len() <= add_name(t, n).len(),
        forall|i: int| 0 <= i < t.len() ==> add_name(t, n)[i] == t[i],
{
    let r = add_name(t, n);
    if t.contains(n) {
        assert forall|x: Seq<char>| r.contains(x) <==> (t.contains(x) || x == n) by {}
    } else {
        assert forall|x: Seq<char>| r.contains(x) implies (t.contains(x) || x == n) by {
            let i = choose|i: int| 0 <= i < r.len() && r[i] == x;
            if i < t.len() {
                assert(t[i] == x);
            }
        }
        assert forall|x: Seq<char>| (t.contains(x) || x == n) implies r.contains(x) by {
            if t.contains(x) {
                let i = choose|i: int| 0 <= i < t.len() && t[i] == x;
                assert(r[i] == x);
            } else {
                assert(r[t.len() as int] == n);
            }
        }
        if distinct(t) {
            assert forall|i: int, j: int| 0 <= i < j < r.len() implies r[i] != r[j] by {
                if j == t.len() as int {
                    assert(r[j] == n);
                    assert(!t.contains(n));
                    assert(t[i] == r[i]);
                    if r[i] == n {
                        assert(t.contains(n));
                    }
                }
            }
        }
    }
}

pub proof fn lemma_add_names_facts(t: Seq<Seq<char>>, ns: Seq<Seq<char>>)
    ensures
        distinct(t) ==> distinct(add_names(t, ns)),
        forall|x: Seq<char>|
            #[trigger] add_names(t, ns).contains(x) <==> (t.contains(x) || ns.contains(x)),
        t.len() <= add_names(t, ns).len(),
        forall|i: int| 0 <= i < t.len() ==> add_names(t, ns)[i] == t[i],
    decreases ns.len(),
{
    if ns.len() == 0 {
        assert forall|x: Seq<char>|
            #[trigger] add_names(t, ns).contains(x) <==> (t.contains(x) || ns.contains(x)) by {
            if ns.contains(x) {
                let i = choose|i: int| 0 <= i < ns.len() && ns[i] == x;
            }
        }
    } else {
        let prev = add_names(t, ns.drop_last());
        lemma_add_names_facts(t, ns.drop_last());
        lemma_add_name_facts(prev, ns.last());
        assert forall|x: Seq<char>|
            #[trigger] add_names(t, ns).contains(x) <==> (t.contains(x) || ns.contains(x)) by {
            assert(add_names(t, ns).contains(x) <==> (prev.contains(x) || x == ns.last()));
            assert(prev.contains(x) <==> (t.contains(x) || ns.drop_last().contains(x)));
            if ns.contains(x) && x != ns.last() {
                let i = choose|i: int| 0 <= i < ns.len() && ns[i] == x;
                assert(ns.drop_last()[i] == x);
                assert(ns.drop_last().contains(x));
            }
            if ns.drop_last().contains(x) {
                let i = choose|i: int| 0 <= i < ns.drop_last().len() && ns.drop_last()[i] == x;
                assert(ns[i] == x);
            }
            if x == ns.last() {
                assert(ns[ns.len() - 1] == x);
            }
        }
    }
}

/// Allocation distributes over concatenation of the scanned name lists.
pub proof fn lemma_add_names_app(t: Seq<Seq<char>>, a: Seq<Seq<char>>, b: Seq<Seq<char>>)
    ensures
        add_names(t, a + b) == add_names(add_names(t, a), b),
    decreases b.len(),
{
    if b.len() == 0 {
        assert(a + b =~= a);
    } else {
        lemma_add_names_app(t, a, b.drop_last());
        assert((a + b).drop_last() =~= a + b.drop_last());
        assert((a + b).last() == b.last());
    }
}

pub proof fn lemma_names_of_push(t: Seq<String>, s: String)
    ensures
        names_of(t.push(s)) == names_of(t).push(s@),
{
    assert(names_of(t.push(s)) =~= names_of(t).push(s@));
}

/// Look a name up in a table. `Some(i)` means entry `i` holds the name;
/// `None` means no entry does.
pub fn find_name(table: &Vec<String>, name: &String) -> (r: Option<usize>)
    ensures
        match r {
            Some(i) => i < table@.len() && names_of(table@)[i as int] == name@,
            None => !names_of(table@).contains(name@),
        },
{
    let n = table.len();
    for k in 0..n
        invariant
            n == table@.len(),
            forall|j: int| 0 <= j < k ==> names_of(table@)[j] != name@,
    {
        if table[k].eq(name) {
            return Some(k);
        }
    }
    proof {
        assert forall|j: int| 0 <= j < names_of(table@).len() implies names_of(table@)[j]
            != name@ by {}
    }
    None
}

} // verus!
