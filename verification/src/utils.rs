//! Dense integer codes for names.

use vstd::prelude::*;

verus! {

/// The character sequences of a list of strings.
pub open spec fn texts(names: Seq<String>) -> Seq<Seq<char>> {
    Seq::new(names.len(), |i: int| names[i]@)
}

/// The names of `s`, each once, in the order in which `s` first has them.
pub open spec fn distinct(s: Seq<Seq<char>>) -> Seq<Seq<char>>
    decreases s.len(),
{
    if s.len() == 0 {
        s
    } else if distinct(s.drop_last()).contains(s.last()) {
        distinct(s.drop_last())
    } else {
        distinct(s.drop_last()).push(s.last())
    }
}

/// The code of `name` in `table`: the position that holds it (the last,
/// where a table holds a name more than once; a table made by `int_encode`
/// holds none twice).
pub open spec fn code_of(table: Seq<Seq<char>>, name: Seq<char>) -> Option<int> {
    if exists|i: int| 0 <= i < table.len() && table[i] == name {
        Some(last_position(table, name, table.len() as int))
    } else {
        None
    }
}

/// The largest position below `bound` that holds `name`, or -1.
pub open spec fn last_position(table: Seq<Seq<char>>, name: Seq<char>, bound: int) -> int
    decreases bound,
{
    if bound <= 0 {
        -1
    } else if bound <= table.len() && table[bound - 1] == name {
        bound - 1
    } else {
        last_position(table, name, bound - 1)
    }
}

/// `last_position` is the largest position below `bound` that holds `name`.
pub proof fn lemma_last_position(table: Seq<Seq<char>>, name: Seq<char>, bound: int)
    requires
        bound <= table.len(),
    ensures
        -1 <= last_position(table, name, bound) < bound || (bound < 0 && last_position(
            table,
            name,
            bound,
        ) == -1),
        last_position(table, name, bound) >= 0 ==> table[last_position(table, name, bound)]
            == name,
        forall|i: int|
            last_position(table, name, bound) < i < bound && 0 <= i ==> table[i] != name,
    decreases bound,
{
    if bound > 0 && table[bound - 1] != name {
        lemma_last_position(table, name, bound - 1);
    }
}

/// Every key keeps a code: what `s` holds, `distinct(s)` holds too.
pub proof fn lemma_distinct_keeps(s: Seq<Seq<char>>, i: int)
    requires
        0 <= i < s.len(),
    ensures
        distinct(s).contains(s[i]),
        code_of(distinct(s), s[i]) is Some,
    decreases s.len(),
{
    let d = distinct(s);
    let prev = distinct(s.drop_last());
    if i == s.len() - 1 {
        if !prev.contains(s.last()) {
            assert(d[d.len() - 1] == s[i]);
        }
    } else {
        lemma_distinct_keeps(s.drop_last(), i);
        assert(s.drop_last()[i] == s[i]);
        let j = choose|j: int| 0 <= j < prev.len() && prev[j] == s[i];
        assert(d[j] == s[i]);
    }
    let j = choose|j: int| 0 <= j < d.len() && d[j] == s[i];
    assert(d[j] == s[i]);
}

/// What `distinct(s)` holds, `s` holds.
pub proof fn lemma_distinct_from(s: Seq<Seq<char>>, j: int)
    requires
        0 <= j < distinct(s).len(),
    ensures
        exists|i: int| 0 <= i < s.len() && s[i] == distinct(s)[j],
    decreases s.len(),
{
    let d = distinct(s);
    let prev = distinct(s.drop_last());
    if s.len() > 0 {
        if j < prev.len() {
            lemma_distinct_from(s.drop_last(), j);
            let i = choose|i: int| 0 <= i < s.drop_last().len() && s.drop_last()[i] == prev[j];
            assert(s[i] == d[j]);
        } else {
            assert(s[s.len() - 1] == d[j]);
        }
    }
}

/// `distinct(s)` holds no name twice, so that a name's code is the one
/// position that holds it, and the codes are the numbers below the number
/// of different names.
pub proof fn lemma_distinct_once(s: Seq<Seq<char>>)
    ensures
        forall|a: int, b: int|
            0 <= a < b < distinct(s).len() ==> #[trigger] distinct(s)[a] != #[trigger] distinct(
                s,
            )[b],
        forall|c: int|
            0 <= c < distinct(s).len() ==> code_of(distinct(s), #[trigger] distinct(s)[c])
                == Some(c),
    decreases s.len(),
{
    let d = distinct(s);
    if s.len() > 0 {
        lemma_distinct_once(s.drop_last());
        let prev = distinct(s.drop_last());
        assert forall|a: int, b: int| 0 <= a < b < d.len() implies #[trigger] d[a] != #[trigger] d[b] by {
            if b < prev.len() {
                assert(d[a] == prev[a] && d[b] == prev[b]);
            } else {
                assert(d[a] == prev[a]);
                assert(prev.contains(prev[a]));
            }
        }
    }
    assert forall|c: int| 0 <= c < d.len() implies code_of(d, #[trigger] d[c]) == Some(c) by {
        lemma_last_position(d, d[c], d.len() as int);
        let q = last_position(d, d[c], d.len() as int);
        if q < c {
            assert(d[c] != d[c]);
        }
        if q > c {
            assert(d[c] != d[q]);
        }
    }
}

/// A code is a position of the table that holds the name.
pub proof fn lemma_code_of(table: Seq<Seq<char>>, name: Seq<char>)
    ensures
        code_of(table, name) matches Some(c) ==> 0 <= c < table.len() && table[c] == name,
        code_of(table, name) is Some <==> exists|i: int|
            0 <= i < table.len() && table[i] == name,
{
    lemma_last_position(table, name, table.len() as int);
}

/// Sequences with the same items, each as often, hold the same items.
pub proof fn lemma_same_items<T>(a: Seq<T>, b: Seq<T>)
    requires
        a.to_multiset() == b.to_multiset(),
    ensures
        a.len() == b.len(),
        forall|x: T| a.contains(x) <==> b.contains(x),
{
    a.to_multiset_ensures();
    b.to_multiset_ensures();
    assert forall|x: T| a.contains(x) <==> b.contains(x) by {
        assert(a.contains(x) <==> a.to_multiset().count(x) > 0);
        assert(b.contains(x) <==> b.to_multiset().count(x) > 0);
    }
}

/// Whether `table` holds the name `name`.
fn holds_name(table: &Vec<String>, name: &String) -> (found: bool)
    ensures
        found == texts(table@).contains(name@),
{
    let mut i: usize = 0;
    while i < table.len()
        invariant
            i <= table.len(),
            forall|j: int| 0 <= j < i ==> texts(table@)[j] != name@,
        decreases table.len() - i,
    {
        if table[i] == *name {
            assert(texts(table@)[i as int] == name@);
            return true;
        }
        i += 1;
    }
    false
}

/// Codes the keys by dense numbers: the result holds every key once, in the
/// order in which `keys` first has them, and a key's code is its position
/// there (`code_of`): 0 for the first key, 1 for the next new one, and so
/// on.
pub fn int_encode(keys: Vec<String>) -> (table: Vec<String>)
    ensures
        texts(table@) == distinct(texts(keys@)),
        forall|c: int|
            0 <= c < table.len() ==> code_of(texts(table@), #[trigger] texts(table@)[c]) == Some(
                c,
            ),
        forall|i: int|
            0 <= i < keys.len() ==> code_of(texts(table@), #[trigger] texts(keys@)[i]) is Some,
{
    let mut table: Vec<String> = Vec::new();
    let mut i: usize = 0;
    while i < keys.len()
        invariant
            i <= keys.len(),
            texts(table@) == distinct(texts(keys@).take(i as int)),
        decreases keys.len() - i,
    {
        let ghost before = texts(keys@).take(i as int);
        let ghost after = texts(keys@).take(i + 1);
        assert(after.drop_last() == before);
        assert(after.last() == keys@[i as int]@);
        if !holds_name(&table, &keys[i]) {
            assert(texts(table@.push(keys@[i as int])) == texts(table@).push(keys@[i as int]@));
            table.push(keys[i].clone());
        }
        i += 1;
    }
    assert(texts(keys@).take(keys.len() as int) == texts(keys@));
    proof {
        lemma_distinct_once(texts(keys@));
        assert forall|i: int| 0 <= i < keys.len() implies code_of(
            texts(table@),
            #[trigger] texts(keys@)[i],
        ) is Some by {
            lemma_distinct_keeps(texts(keys@), i);
        }
    }
    table
}

/// The code of `name` in a table made by `int_encode`, if it has one.
pub fn lookup(table: &Vec<String>, name: &str) -> (r: Option<usize>)
    ensures
        r is Some <==> code_of(texts(table@), name@) is Some,
        r matches Some(i) ==> code_of(texts(table@), name@) == Some(i as int),
        r matches Some(i) ==> i < table.len() && table[i as int]@ == name@,
{
    let wanted = name.to_owned();
    let mut i: usize = table.len();
    proof {
        lemma_last_position(texts(table@), name@, table.len() as int);
    }
    while i > 0
        invariant
            i <= table.len(),
            wanted@ == name@,
            forall|j: int| i <= j < table.len() ==> texts(table@)[j] != name@,
            last_position(texts(table@), name@, table.len() as int) == last_position(
                texts(table@),
                name@,
                i as int,
            ),
        decreases i,
    {
        if table[i - 1] == wanted {
            assert(texts(table@)[i - 1] == name@);
            return Some(i - 1);
        }
        assert(texts(table@)[i - 1] != name@);
        i -= 1;
    }
    None
}

} // verus!
