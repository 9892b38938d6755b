//! A total order on principal names and on clauses, used to keep every
//! disjunction and conjunction in a single canonical shape.
use vstd::prelude::*;
use vstd::string::StrSliceExecFns;

verus! {

broadcast use vstd::set::group_set_axioms;

/// Heads and tails equal makes the whole sequences equal.
proof fn lemma_head_tail_eq<A>(a: Seq<A>, b: Seq<A>)
    requires
        a.len() > 0,
        b.len() > 0,
        a[0] == b[0],
        a.drop_first() == b.drop_first(),
    ensures
        a == b,
{
    assert(a.drop_first().len() == a.len() - 1);
    assert(b.drop_first().len() == b.len() - 1);
    assert forall|k: int| 0 <= k < a.len() implies a[k] == b[k] by {
        if k > 0 {
            assert(a.drop_first()[k - 1] == a[k]);
            assert(b.drop_first()[k - 1] == b[k]);
        }
    }
    assert(a =~= b);
}

/// Strict order on characters, by code point.
pub open spec fn char_lt(a: char, b: char) -> bool {
    a < b
}

/// Lexicographic strict order on principal names.
pub open spec fn chars_lt(a: Seq<char>, b: Seq<char>) -> bool
    decreases a.len(),
{
    if b.len() == 0 {
        false
    } else if a.len() == 0 {
        true
    } else if a[0] != b[0] {
        char_lt(a[0], b[0])
    } else {
        chars_lt(a.drop_first(), b.drop_first())
    }
}

pub proof fn lemma_chars_lt_asym(a: Seq<char>, b: Seq<char>)
    requires
        chars_lt(a, b),
    ensures
        !chars_lt(b, a),
    decreases a.len(),
{
    if a.len() > 0 && b.len() > 0 && a[0] == b[0] {
        lemma_chars_lt_asym(a.drop_first(), b.drop_first());
    }
}

pub proof fn lemma_chars_lt_connected(a: Seq<char>, b: Seq<char>)
    requires
        a != b,
    ensures
        chars_lt(a, b) || chars_lt(b, a),
    decreases a.len(),
{
    if a.len() > 0 && b.len() > 0 && a[0] == b[0] {
        assert(a.drop_first() != b.drop_first()) by {
            if a.drop_first() == b.drop_first() {
                lemma_head_tail_eq(a, b);
            }
        }
        lemma_chars_lt_connected(a.drop_first(), b.drop_first());
    } else if a.len() == 0 && b.len() == 0 {
        assert(a =~= b);
    }
}

pub proof fn lemma_chars_lt_trans(a: Seq<char>, b: Seq<char>, c: Seq<char>)
    requires
        chars_lt(a, b),
        chars_lt(b, c),
    ensures
        chars_lt(a, c),
    decreases a.len(),
{
    if a.len() > 0 && b.len() > 0 && c.len() > 0 && a[0] == b[0] && b[0] == c[0] {
        lemma_chars_lt_trans(a.drop_first(), b.drop_first(), c.drop_first());
    }
}

/// Lexicographic strict order on clauses, over the order on principal names.
pub open spec fn clause_lt(a: Seq<Seq<char>>, b: Seq<Seq<char>>) -> bool
    decreases a.len(),
{
    if b.len() == 0 {
        false
    } else if a.len() == 0 {
        true
    } else if a[0] != b[0] {
        chars_lt(a[0], b[0])
    } else {
        clause_lt(a.drop_first(), b.drop_first())
    }
}

pub proof fn lemma_clause_lt_asym(a: Seq<Seq<char>>, b: Seq<Seq<char>>)
    requires
        clause_lt(a, b),
    ensures
        !clause_lt(b, a),
    decreases a.len(),
{
    if a.len() > 0 && b.len() > 0 {
        if a[0] == b[0] {
            lemma_clause_lt_asym(a.drop_first(), b.drop_first());
        } else {
            lemma_chars_lt_asym(a[0], b[0]);
        }
    }
}

pub proof fn lemma_clause_lt_connected(a: Seq<Seq<char>>, b: Seq<Seq<char>>)
    requires
        a != b,
    ensures
        clause_lt(a, b) || clause_lt(b, a),
    decreases a.len(),
{
    if a.len() > 0 && b.len() > 0 {
        if a[0] == b[0] {
            assert(a.drop_first() != b.drop_first()) by {
                if a.drop_first() == b.drop_first() {
                    lemma_head_tail_eq(a, b);
                }
            }
            lemma_clause_lt_connected(a.drop_first(), b.drop_first());
        } else {
            lemma_chars_lt_connected(a[0], b[0]);
        }
    } else if a.len() == 0 && b.len() == 0 {
        assert(a =~= b);
    }
}

pub proof fn lemma_clause_lt_trans(a: Seq<Seq<char>>, b: Seq<Seq<char>>, c: Seq<Seq<char>>)
    requires
        clause_lt(a, b),
        clause_lt(b, c),
    ensures
        clause_lt(a, c),
    decreases a.len(),
{
    if a.len() > 0 && b.len() > 0 && c.len() > 0 {
        if a[0] == b[0] && b[0] == c[0] {
            lemma_clause_lt_trans(a.drop_first(), b.drop_first(), c.drop_first());
        } else if a[0] == b[0] {
            assert(chars_lt(a[0], c[0]));
        } else if b[0] == c[0] {
            assert(chars_lt(a[0], c[0]));
        } else {
            lemma_chars_lt_trans(a[0], b[0], c[0]);
            assert(a[0] != c[0]) by {
                if a[0] == c[0] {
                    lemma_chars_lt_asym(a[0], b[0]);
                }
            }
        }
    }
}

/// Every element is strictly below every later one: the sequence is sorted and
/// free of duplicates.
pub open spec fn sorted_names(s: Seq<Seq<char>>) -> bool {
    forall|i: int, j: int| 0 <= i < j < s.len() ==> chars_lt(s[i], s[j])
}

pub open spec fn sorted_clauses(s: Seq<Seq<Seq<char>>>) -> bool {
    forall|i: int, j: int| 0 <= i < j < s.len() ==> clause_lt(s[i], s[j])
}

/// A sorted sequence of names is determined by the set of its elements.
pub proof fn lemma_sorted_names_unique(x: Seq<Seq<char>>, y: Seq<Seq<char>>)
    requires
        sorted_names(x),
        sorted_names(y),
        x.to_set() == y.to_set(),
    ensures
        x == y,
    decreases x.len(),
{
    if x.len() == 0 {
        if y.len() > 0 {
            assert(y.to_set().contains(y[0]));
            assert(x.contains(y[0]));
        }
        assert(x =~= y);
    } else if y.len() == 0 {
        assert(x.to_set().contains(x[0]));
        assert(y.contains(x[0]));
    } else {
        assert(x.to_set().contains(x[0]));
        assert(y.to_set().contains(y[0]));
        assert(y.contains(x[0]));
        assert(x.contains(y[0]));
        let i = choose|i: int| 0 <= i < x.len() && x[i] == y[0];
        let j = choose|j: int| 0 <= j < y.len() && y[j] == x[0];
        assert(x[0] == y[0]) by {
            if x[0] != y[0] {
                assert(chars_lt(x[0], x[i]));
                assert(chars_lt(y[0], y[j]));
                lemma_chars_lt_asym(x[0], y[0]);
            }
        }
        assert(x.drop_first().to_set() =~= y.drop_first().to_set()) by {
            assert forall|e: Seq<char>| x.drop_first().to_set().contains(e)
                <==> y.drop_first().to_set().contains(e) by {
                assert(x.drop_first().to_set().contains(e) <==> x.drop_first().contains(e));
                assert(y.drop_first().to_set().contains(e) <==> y.drop_first().contains(e));
                assert(x.contains(e) <==> x.to_set().contains(e));
                assert(y.contains(e) <==> y.to_set().contains(e));
                lemma_head_not_in_tail_names(x);
                lemma_head_not_in_tail_names(y);
                assert(x.drop_first().contains(e) <==> x.contains(e) && e != x[0]);
                assert(y.drop_first().contains(e) <==> y.contains(e) && e != y[0]);
            }
        }
        lemma_sorted_names_unique(x.drop_first(), y.drop_first());
        lemma_head_tail_eq(x, y);
    }
}

proof fn lemma_head_not_in_tail_names(x: Seq<Seq<char>>)
    requires
        sorted_names(x),
        x.len() > 0,
    ensures
        !x.drop_first().contains(x[0]),
        forall|e: Seq<char>| x.drop_first().contains(e) <==> x.contains(e) && e != x[0],
{
    assert forall|k: int| #![trigger x[k]] 1 <= k < x.len() implies x[k] != x[0] by {
        if x[k] == x[0] {
            assert(chars_lt(x[0], x[k]));
            lemma_chars_lt_asym(x[0], x[k]);
        }
    }
    assert forall|e: Seq<char>| x.drop_first().contains(e)
        <==> x.contains(e) && e != x[0] by {
        if x.drop_first().contains(e) {
            let k = choose|k: int| 0 <= k < x.drop_first().len() && x.drop_first()[k] == e;
            assert(x[k + 1] == e);
        }
        if x.contains(e) && e != x[0] {
            let k = choose|k: int| 0 <= k < x.len() && x[k] == e;
            assert(x.drop_first()[k - 1] == e);
        }
    }
}

/// A sorted sequence of clauses is determined by the set of its elements.
pub proof fn lemma_sorted_clauses_unique(x: Seq<Seq<Seq<char>>>, y: Seq<Seq<Seq<char>>>)
    requires
        sorted_clauses(x),
        sorted_clauses(y),
        x.to_set() == y.to_set(),
    ensures
        x == y,
    decreases x.len(),
{
    if x.len() == 0 {
        if y.len() > 0 {
            assert(y.to_set().contains(y[0]));
            assert(x.contains(y[0]));
        }
        assert(x =~= y);
    } else if y.len() == 0 {
        assert(x.to_set().contains(x[0]));
        assert(y.contains(x[0]));
    } else {
        assert(x.to_set().contains(x[0]));
        assert(y.to_set().contains(y[0]));
        assert(y.contains(x[0]));
        assert(x.contains(y[0]));
        let i = choose|i: int| 0 <= i < x.len() && x[i] == y[0];
        let j = choose|j: int| 0 <= j < y.len() && y[j] == x[0];
        assert(x[0] == y[0]) by {
            if x[0] != y[0] {
                assert(clause_lt(x[0], x[i]));
                assert(clause_lt(y[0], y[j]));
                lemma_clause_lt_asym(x[0], y[0]);
            }
        }
        assert(x.drop_first().to_set() =~= y.drop_first().to_set()) by {
            assert forall|e: Seq<Seq<char>>| x.drop_first().to_set().contains(e)
                <==> y.drop_first().to_set().contains(e) by {
                assert(x.drop_first().to_set().contains(e) <==> x.drop_first().contains(e));
                assert(y.drop_first().to_set().contains(e) <==> y.drop_first().contains(e));
                assert(x.contains(e) <==> x.to_set().contains(e));
                assert(y.contains(e) <==> y.to_set().contains(e));
                lemma_head_not_in_tail_clauses(x);
                lemma_head_not_in_tail_clauses(y);
                assert(x.drop_first().contains(e) <==> x.contains(e) && e != x[0]);
                assert(y.drop_first().contains(e) <==> y.contains(e) && e != y[0]);
            }
        }
        lemma_sorted_clauses_unique(x.drop_first(), y.drop_first());
        lemma_head_tail_eq(x, y);
    }
}

proof fn lemma_head_not_in_tail_clauses(x: Seq<Seq<Seq<char>>>)
    requires
        sorted_clauses(x),
        x.len() > 0,
    ensures
        !x.drop_first().contains(x[0]),
        forall|e: Seq<Seq<char>>| x.drop_first().contains(e) <==> x.contains(e) && e != x[0],
{
    assert forall|k: int| #![trigger x[k]] 1 <= k < x.len() implies x[k] != x[0] by {
        if x[k] == x[0] {
            assert(clause_lt(x[0], x[k]));
            lemma_clause_lt_asym(x[0], x[k]);
        }
    }
    assert forall|e: Seq<Seq<char>>| x.drop_first().contains(e)
        <==> x.contains(e) && e != x[0] by {
        if x.drop_first().contains(e) {
            let k = choose|k: int| 0 <= k < x.drop_first().len() && x.drop_first()[k] == e;
            assert(x[k + 1] == e);
        }
        if x.contains(e) && e != x[0] {
            let k = choose|k: int| 0 <= k < x.len() && x[k] == e;
            assert(x.drop_first()[k - 1] == e);
        }
    }
}

/// Decides the lexicographic order on two principal names.
pub fn str_lt(a: &str, b: &str) -> (r: bool)
    ensures
        r == chars_lt(a@, b@),
{
    let a_len = a.unicode_len();
    let b_len = b.unicode_len();
    let mut i: usize = 0;
    loop
        invariant
            i <= a_len,
            i <= b_len,
            a_len == a@.len(),
            b_len == b@.len(),
            a@.subrange(0, i as int) == b@.subrange(0, i as int),
        decreases a_len - i,
    {
        proof {
            lemma_chars_lt_skip(a@, b@, i as int);
        }
        if i == b_len {
            return false;
        }
        if i == a_len {
            return true;
        }
        let ca = a.get_char(i);
        let cb = b.get_char(i);
        if ca != cb {
            return ca < cb;
        }
        proof {
            assert(a@.subrange(0, i + 1) =~= a@.subrange(0, i as int).push(a@[i as int]));
            assert(b@.subrange(0, i + 1) =~= b@.subrange(0, i as int).push(b@[i as int]));
        }
        i = i + 1;
    }
}

/// With equal prefixes of length `i`, the order is decided by what follows.
proof fn lemma_chars_lt_skip(a: Seq<char>, b: Seq<char>, i: int)
    requires
        0 <= i <= a.len(),
        i <= b.len(),
        a.subrange(0, i) == b.subrange(0, i),
    ensures
        chars_lt(a, b) == (if i == b.len() {
            false
        } else if i == a.len() {
            true
        } else if a[i] != b[i] {
            char_lt(a[i], b[i])
        } else {
            chars_lt(a.skip(i + 1), b.skip(i + 1))
        }),
    decreases i,
{
    if i == 0 {
        if a.len() > 0 && b.len() > 0 {
            if a[0] == b[0] {
                assert(a.skip(1) =~= a.drop_first());
                assert(b.skip(1) =~= b.drop_first());
            }
        }
    } else {
        assert(a.subrange(0, i)[0] == a[0]);
        assert(b.subrange(0, i)[0] == b[0]);
        assert(a[0] == b[0]);
        assert(a.drop_first().subrange(0, i - 1) =~= a.subrange(0, i).drop_first());
        assert(b.drop_first().subrange(0, i - 1) =~= b.subrange(0, i).drop_first());
        lemma_chars_lt_skip(a.drop_first(), b.drop_first(), i - 1);
        assert(a.len() > 0 && b.len() > 0 && a[0] == b[0]);
        if i < a.len() && i < b.len() {
            assert(a.drop_first()[i - 1] == a[i]);
            assert(b.drop_first()[i - 1] == b[i]);
            if a[i] == b[i] {
                assert(a.drop_first().skip(i) =~= a.skip(i + 1));
                assert(b.drop_first().skip(i) =~= b.skip(i + 1));
            }
        }
    }
}

/// With equal prefixes of length `i`, the clause order is decided by what
/// follows.
pub proof fn lemma_clause_lt_skip(a: Seq<Seq<char>>, b: Seq<Seq<char>>, i: int)
    requires
        0 <= i <= a.len(),
        i <= b.len(),
        a.subrange(0, i) == b.subrange(0, i),
    ensures
        clause_lt(a, b) == (if i == b.len() {
            false
        } else if i == a.len() {
            true
        } else if a[i] != b[i] {
            chars_lt(a[i], b[i])
        } else {
            clause_lt(a.skip(i + 1), b.skip(i + 1))
        }),
    decreases i,
{
    if i == 0 {
        if a.len() > 0 && b.len() > 0 {
            if a[0] == b[0] {
                assert(a.skip(1) =~= a.drop_first());
                assert(b.skip(1) =~= b.drop_first());
            }
        }
    } else {
        assert(a.subrange(0, i)[0] == a[0]);
        assert(b.subrange(0, i)[0] == b[0]);
        assert(a[0] == b[0]);
        assert(a.drop_first().subrange(0, i - 1) =~= a.subrange(0, i).drop_first());
        assert(b.drop_first().subrange(0, i - 1) =~= b.subrange(0, i).drop_first());
        lemma_clause_lt_skip(a.drop_first(), b.drop_first(), i - 1);
        assert(a.len() > 0 && b.len() > 0 && a[0] == b[0]);
        if i < a.len() && i < b.len() {
            assert(a.drop_first()[i - 1] == a[i]);
            assert(b.drop_first()[i - 1] == b[i]);
            if a[i] == b[i] {
                assert(a.drop_first().skip(i) =~= a.skip(i + 1));
                assert(b.drop_first().skip(i) =~= b.skip(i + 1));
            }
        }
    }
}

/// Whether a name occurs in a vector of names.
pub fn name_in(v: &Vec<String>, x: &String) -> (r: bool)
    ensures
        r == v.deep_view().contains(x@),
{
    let mut j: usize = 0;
    while j < v.len()
        invariant
            j <= v.len(),
            forall|l: int| 0 <= l < j ==> v.deep_view()[l] != x@,
        decreases v.len() - j,
    {
        if v[j] == *x {
            assert(v.deep_view()[j as int] == x@);
            return true;
        }
        j += 1;
    }
    false
}

/// Inserts a name into a sorted vector of names, keeping it sorted and
/// free of duplicates.
pub fn insert_name(v: &mut Vec<String>, x: String)
    requires
        sorted_names(old(v).deep_view()),
    ensures
        sorted_names(final(v).deep_view()),
        final(v).deep_view().to_set() == old(v).deep_view().to_set().insert(x@),
{
    let ghost dv = v.deep_view();
    let mut i: usize = 0;
    while i < v.len() && str_lt(v[i].as_str(), x.as_str())
        invariant
            i <= v.len(),
            v.deep_view() == dv,
            forall|k: int| 0 <= k < i ==> chars_lt(dv[k], x@),
        decreases v.len() - i,
    {
        i += 1;
    }
    if i < v.len() && v[i] == x {
        assert(dv[i as int] == x@);
        assert(v.deep_view().to_set() =~= dv.to_set().insert(x@));
        return;
    }
    proof {
        if i < dv.len() && dv[i as int] != x@ {
            lemma_chars_lt_connected(dv[i as int], x@);
        }
    }
    assert(i < dv.len() ==> chars_lt(x@, dv[i as int]));
    v.insert(i, x);
    proof {
        let nv = v.deep_view();
        assert(nv =~= dv.insert(i as int, x@)) by {
            assert forall|k: int| 0 <= k < nv.len() implies nv[k] == dv.insert(i as int, x@)[k] by {
                assert(nv[k] == v@[k]@);
            }
        }
        assert forall|a: int, b: int| 0 <= a < b < nv.len() implies chars_lt(nv[a], nv[b]) by {
            let ia = if a < i { dv[a] } else if a == i { x@ } else { dv[a - 1] };
            let ib = if b < i { dv[b] } else if b == i { x@ } else { dv[b - 1] };
            assert(nv[a] == ia);
            assert(nv[b] == ib);
            if a == i && b > i {
                if b - 1 > i {
                    lemma_chars_lt_trans(x@, dv[i as int], dv[b - 1]);
                }
            }
        }
        assert(nv.to_set() =~= dv.to_set().insert(x@)) by {
            assert forall|e: Seq<char>| nv.to_set().contains(e)
                <==> dv.to_set().contains(e) || e == x@ by {
                if nv.contains(e) {
                    let k = choose|k: int| 0 <= k < nv.len() && nv[k] == e;
                    if k < i {
                        assert(dv[k] == e);
                    } else if k > i {
                        assert(dv[k - 1] == e);
                    }
                }
                if dv.contains(e) {
                    let k = choose|k: int| 0 <= k < dv.len() && dv[k] == e;
                    if k < i {
                        assert(nv[k] == e);
                    } else {
                        assert(nv[k + 1] == e);
                    }
                }
                assert(nv[i as int] == x@);
            }
        }
    }
}

/// The union of two sorted vectors of names, sorted.
pub fn union_names(a: &Vec<String>, b: &Vec<String>) -> (r: Vec<String>)
    requires
        sorted_names(a.deep_view()),
        sorted_names(b.deep_view()),
    ensures
        sorted_names(r.deep_view()),
        r.deep_view().to_set() == a.deep_view().to_set().union(b.deep_view().to_set()),
{
    let mut r: Vec<String> = a.clone();
    proof {
        assert forall|k: int| 0 <= k < a@.len() implies r@[k] == a@[k] by {}
        assert(r@ =~= a@);
        assert(r.deep_view() =~= a.deep_view());
        assert(r.deep_view().to_set() =~= a.deep_view().to_set().union(
            b.deep_view().take(0).to_set()));
    }
    let mut j: usize = 0;
    while j < b.len()
        invariant
            j <= b.len(),
            sorted_names(b.deep_view()),
            sorted_names(r.deep_view()),
            r.deep_view().to_set() == a.deep_view().to_set().union(
                b.deep_view().take(j as int).to_set()),
        decreases b.len() - j,
    {
        let ghost before = r.deep_view().to_set();
        insert_name(&mut r, b[j].clone());
        assert(b.deep_view()[j as int] == b@[j as int]@);
        assert(r.deep_view().to_set() =~= a.deep_view().to_set().union(
            b.deep_view().take(j + 1).to_set())) by {
            assert(b.deep_view().take(j + 1) =~= b.deep_view().take(j as int).push(
                b.deep_view()[j as int]));
            assert(b.deep_view().take(j + 1).to_set() =~= b.deep_view().take(
                j as int).to_set().insert(b.deep_view()[j as int])) by {
                let s = b.deep_view().take(j as int);
                let e = b.deep_view()[j as int];
                assert forall|y: Seq<char>| s.push(e).contains(y)
                    <==> s.to_set().insert(e).contains(y) by {
                    if s.push(e).contains(y) {
                        let k = choose|k: int| 0 <= k < s.push(e).len() && s.push(e)[k] == y;
                        if k < s.len() {
                            assert(s[k] == y);
                        }
                    }
                    if s.contains(y) {
                        let k = choose|k: int| 0 <= k < s.len() && s[k] == y;
                        assert(s.push(e)[k] == y);
                    }
                    assert(s.push(e)[s.len() as int] == e);
                }
            }
        }
        j += 1;
    }
    assert(b.deep_view().take(b.len() as int) =~= b.deep_view());
    r
}

/// The separator between principals of one clause, as characters.
pub open spec fn or_sep() -> Seq<char> {
    seq![' ', '\\', '/', ' ']
}

/// The names from position `i` on, each preceded by the separator.
pub open spec fn names_rest(s: Seq<Seq<char>>, i: int) -> Seq<char>
    decreases s.len() - i,
{
    if i < 0 || i >= s.len() {
        Seq::empty()
    } else {
        or_sep() + s[i] + names_rest(s, i + 1)
    }
}

/// The display form of a clause: the names in order, separated, in
/// parentheses; the empty clause shows as a pair of parentheses.
pub open spec fn display_names_spec(s: Seq<Seq<char>>) -> Seq<char> {
    if s.len() == 0 {
        seq!['(', ')']
    } else {
        seq!['('] + s[0] + names_rest(s, 1) + seq![')']
    }
}

/// The debug form of a clause: the names in order, separated; the empty
/// clause shows as the word False.
pub open spec fn debug_names_spec(s: Seq<Seq<char>>) -> Seq<char> {
    if s.len() == 0 {
        seq!['F', 'a', 'l', 's', 'e']
    } else {
        s[0] + names_rest(s, 1)
    }
}

/// Renders the names joined by the separator, appended to `out`.
fn append_joined(out: &mut String, v: &Vec<String>)
    requires
        v@.len() > 0,
    ensures
        final(out)@ == old(out)@ + v.deep_view()[0] + names_rest(v.deep_view(), 1),
{
    let ghost base = out@;
    let ghost dv = v.deep_view();
    out.append(v[0].as_str());
    proof {
        assert(v@[0]@ == dv[0]);
    }
    let mut i: usize = 1;
    while i < v.len()
        invariant
            1 <= i <= v.len(),
            dv == v.deep_view(),
            base + dv[0] + names_rest(dv, 1) == out@ + names_rest(dv, i as int),
        decreases v.len() - i,
    {
        proof {
            reveal_strlit(" \\/ ");
            assert(" \\/ "@ =~= or_sep());
            assert(v@[i as int]@ == dv[i as int]);
        }
        let ghost before = out@;
        out.append(" \\/ ");
        out.append(v[i].as_str());
        proof {
            assert(out@ =~= before + or_sep() + dv[i as int]);
            assert(names_rest(dv, i as int) == or_sep() + dv[i as int] + names_rest(
                dv,
                i + 1,
            ));
            assert(before + (or_sep() + dv[i as int] + names_rest(dv, i + 1)) =~= (before
                + or_sep() + dv[i as int]) + names_rest(dv, i + 1));
        }
        i += 1;
    }
    proof {
        assert(names_rest(dv, i as int) =~= Seq::<char>::empty());
        assert(out@ + Seq::<char>::empty() =~= out@);
        assert(base + dv[0] + names_rest(dv, 1) =~= (base + dv[0]) + names_rest(dv, 1));
    }
}

/// The display form of a sorted vector of names.
pub fn display_names(v: &Vec<String>) -> (r: String)
    ensures
        r@ == display_names_spec(v.deep_view()),
{
    let mut out = String::from_str("(");
    proof {
        reveal_strlit("(");
        reveal_strlit(")");
        reveal_strlit("()");
    }
    if v.len() > 0 {
        append_joined(&mut out, v);
    }
    let ghost whole = out@;
    out.append(")");
    proof {
        if v.deep_view().len() == 0 {
            assert(out@ =~= seq!['(', ')']);
        } else {
            assert("("@ =~= seq!['(']);
            assert(")"@ =~= seq![')']);
            assert(out@ =~= seq!['('] + v.deep_view()[0] + names_rest(v.deep_view(), 1)
                + seq![')']);
        }
    }
    out
}

/// The debug form of a vector of names.
pub fn debug_names(v: &Vec<String>) -> (r: String)
    ensures
        r@ == debug_names_spec(v.deep_view()),
{
    if v.len() == 0 {
        let out = String::from_str("False");
        proof {
            reveal_strlit("False");
            assert(out@ =~= seq!['F', 'a', 'l', 's', 'e']);
        }
        out
    } else {
        let mut out = String::new();
        append_joined(&mut out, v);
        proof {
            assert(Seq::<char>::empty() + v.deep_view()[0] + names_rest(v.deep_view(), 1)
                =~= v.deep_view()[0] + names_rest(v.deep_view(), 1));
        }
        out
    }
}

} // verus!
