//! Named tables kept in the order of their names: the storage behind a resolved memory map.
//! Names are ordered as Rust orders strings, byte by byte over their UTF-8 encoding.
use vstd::prelude::*;
use vstd::string::*;
use vstd::utf8::encode_utf8;

verus! {

/// Byte-wise lexicographic order: a proper prefix comes first.
pub open spec fn bytes_lt(a: Seq<u8>, b: Seq<u8>) -> bool
    decreases a.len(),
{
    if a.len() == 0 {
        b.len() > 0
    } else if b.len() == 0 {
        false
    } else if a[0] < b[0] {
        true
    } else if a[0] > b[0] {
        false
    } else {
        bytes_lt(a.drop_first(), b.drop_first())
    }
}

/// The order of names: that of their UTF-8 encodings.
pub open spec fn name_lt(a: Seq<char>, b: Seq<char>) -> bool {
    bytes_lt(encode_utf8(a), encode_utf8(b))
}

/// No byte sequence precedes itself.
pub proof fn lemma_bytes_lt_irreflexive(a: Seq<u8>)
    ensures
        !bytes_lt(a, a),
    decreases a.len(),
{
    if a.len() > 0 {
        lemma_bytes_lt_irreflexive(a.drop_first());
    }
}

/// Byte-wise order is transitive.
pub proof fn lemma_bytes_lt_transitive(a: Seq<u8>, b: Seq<u8>, c: Seq<u8>)
    requires
        bytes_lt(a, b),
        bytes_lt(b, c),
    ensures
        bytes_lt(a, c),
    decreases a.len(),
{
    if a.len() > 0 && b.len() > 0 && c.len() > 0 {
        if a[0] == b[0] && b[0] == c[0] {
            lemma_bytes_lt_transitive(a.drop_first(), b.drop_first(), c.drop_first());
        }
    }
}

/// Names in strictly increasing order (hence pairwise different).
pub open spec fn names_increase(names: Seq<Seq<char>>) -> bool {
    forall|i: int, j: int| 0 <= i < j < names.len() ==> name_lt(#[trigger] names[i], #[trigger] names[j])
}

/// The names of a list of tables, in order.
pub open spec fn table_names<T>(v: Seq<(String, Vec<T>)>) -> Seq<Seq<char>> {
    v.map_values(|p: (String, Vec<T>)| p.0@)
}

/// A list of tables whose names strictly increase.
pub open spec fn tables_wf<T>(v: Seq<(String, Vec<T>)>) -> bool {
    names_increase(table_names(v))
}

/// The tables by name.
pub open spec fn tables_map<T>(v: Seq<(String, Vec<T>)>) -> Map<Seq<char>, Seq<T>> {
    Map::new(
        |k: Seq<char>| exists|i: int| 0 <= i < v.len() && v[i].0@ == k,
        |k: Seq<char>| v[choose|i: int| 0 <= i < v.len() && v[i].0@ == k].1@,
    )
}

/// Two names of which one precedes the other differ.
pub proof fn lemma_name_lt_differ(a: Seq<char>, b: Seq<char>)
    requires
        name_lt(a, b),
    ensures
        a != b,
{
    if a == b {
        lemma_bytes_lt_irreflexive(encode_utf8(a));
    }
}

/// In well-formed tables, the table of the name at index `i` is the one at index `i`.
pub proof fn lemma_tables_map_at<T>(v: Seq<(String, Vec<T>)>, i: int)
    requires
        tables_wf(v),
        0 <= i < v.len(),
    ensures
        tables_map(v).contains_key(v[i].0@),
        tables_map(v)[v[i].0@] == v[i].1@,
{
    let names = table_names(v);
    assert(names[i] == v[i].0@);
    let j = choose|j: int| 0 <= j < v.len() && v[j].0@ == v[i].0@;
    if j != i {
        assert(names[j] == v[j].0@);
        if i < j {
            lemma_name_lt_differ(names[i], names[j]);
        } else {
            lemma_name_lt_differ(names[j], names[i]);
        }
    }
}

/// The order of two names, byte by byte over their UTF-8 encodings.
pub enum NameOrder {
    Before,
    Same,
    After,
}

/// Compares two names.
pub fn name_order(a: &str, b: &str) -> (r: NameOrder)
    ensures
        r is Before <==> name_lt(a@, b@),
        r is Same <==> a@ == b@,
        r is After <==> name_lt(b@, a@),
{
    let x = a.as_bytes();
    let y = b.as_bytes();
    let ghost xs = encode_utf8(a@);
    let ghost ys = encode_utf8(b@);
    let mut i: usize = 0;
    proof {
        assert(xs.skip(0) =~= xs);
        assert(ys.skip(0) =~= ys);
        assert(xs.take(0) =~= ys.take(0));
    }
    while i < x.len() && i < y.len()
        invariant
            x@ == xs,
            y@ == ys,
            xs == encode_utf8(a@),
            ys == encode_utf8(b@),
            i <= xs.len(),
            i <= ys.len(),
            xs.take(i as int) == ys.take(i as int),
            bytes_lt(xs, ys) == bytes_lt(xs.skip(i as int), ys.skip(i as int)),
            bytes_lt(ys, xs) == bytes_lt(ys.skip(i as int), xs.skip(i as int)),
        decreases xs.len() - i,
    {
        let p = x[i];
        let q = y[i];
        if p < q {
            proof {
                assert(xs.skip(i as int).len() > 0 && ys.skip(i as int).len() > 0);
                assert(xs.skip(i as int)[0] == p && ys.skip(i as int)[0] == q);
                assert(bytes_lt(xs.skip(i as int), ys.skip(i as int)));
                assert(!bytes_lt(ys.skip(i as int), xs.skip(i as int)));
                assert(name_lt(a@, b@));
                lemma_name_lt_differ(a@, b@);
            }
            return NameOrder::Before;
        }
        if p > q {
            proof {
                assert(xs.skip(i as int).len() > 0 && ys.skip(i as int).len() > 0);
                assert(xs.skip(i as int)[0] == p && ys.skip(i as int)[0] == q);
                assert(!bytes_lt(xs.skip(i as int), ys.skip(i as int)));
                assert(bytes_lt(ys.skip(i as int), xs.skip(i as int)));
                assert(name_lt(b@, a@));
                lemma_name_lt_differ(b@, a@);
            }
            return NameOrder::After;
        }
        proof {
            assert(xs.skip(i as int).drop_first() =~= xs.skip(i + 1));
            assert(ys.skip(i as int).drop_first() =~= ys.skip(i + 1));
            assert(xs.take(i + 1) =~= xs.take(i as int).push(p));
            assert(ys.take(i + 1) =~= ys.take(i as int).push(q));
        }
        i = i + 1;
    }
    proof {
        broadcast use vstd::utf8::encode_utf8_decode_utf8;

        if x.len() == y.len() {
            assert(xs =~= xs.take(i as int));
            assert(ys =~= ys.take(i as int));
            assert(vstd::utf8::decode_utf8(xs) == a@);
            assert(vstd::utf8::decode_utf8(ys) == b@);
            lemma_bytes_lt_irreflexive(xs);
        } else {
            if a@ == b@ {
                assert(xs.len() == ys.len());
            }
        }
    }
    if x.len() == y.len() {
        NameOrder::Same
    } else if x.len() < y.len() {
        proof {
            assert(xs.skip(i as int).len() == 0);
        }
        NameOrder::Before
    } else {
        proof {
            assert(ys.skip(i as int).len() == 0);
        }
        NameOrder::After
    }
}

/// Name order is transitive.
pub proof fn lemma_name_lt_transitive(a: Seq<char>, b: Seq<char>, c: Seq<char>)
    requires
        name_lt(a, b),
        name_lt(b, c),
    ensures
        name_lt(a, c),
{
    lemma_bytes_lt_transitive(encode_utf8(a), encode_utf8(b), encode_utf8(c));
}

/// The keys of the tables' map are their names, and each name maps to its table.
pub proof fn lemma_tables_map_keys<T>(v: Seq<(String, Vec<T>)>)
    requires
        tables_wf(v),
    ensures
        forall|k: Seq<char>| #[trigger] tables_map(v).contains_key(k) <==> table_names(v).contains(k),
        forall|i: int| 0 <= i < v.len() ==> #[trigger] tables_map(v)[v[i].0@] == v[i].1@,
{
    assert forall|i: int| 0 <= i < v.len() implies #[trigger] tables_map(v)[v[i].0@] == v[i].1@ by {
        lemma_tables_map_at(v, i);
    }
    assert forall|k: Seq<char>| #[trigger] tables_map(v).contains_key(k) <==> table_names(v).contains(k) by {
        if tables_map(v).contains_key(k) {
            let i = choose|i: int| 0 <= i < v.len() && v[i].0@ == k;
            assert(table_names(v)[i] == k);
        }
        if table_names(v).contains(k) {
            let i = choose|i: int| 0 <= i < table_names(v).len() && table_names(v)[i] == k;
            assert(v[i].0@ == k);
        }
    }
}

/// Where `name` stands among ordered tables: `Ok(i)` when the table at `i` has that name,
/// `Err(i)` when the name is absent and belongs before the table at `i`.
pub(crate) fn find_table<T>(v: &Vec<(String, Vec<T>)>, name: &str) -> (r: Result<usize, usize>)
    requires
        tables_wf(v@),
    ensures
        r matches Ok(i) ==> i < v@.len() && v@[i as int].0@ == name@,
        r matches Err(i) ==> i <= v@.len() && (forall|j: int| 0 <= j < i ==> name_lt(v@[j].0@, name@))
            && (forall|j: int| i <= j < v@.len() ==> name_lt(name@, v@[j].0@)),
{
    let mut i: usize = 0;
    while i < v.len()
        invariant
            i <= v@.len(),
            tables_wf(v@),
            forall|j: int| 0 <= j < i ==> name_lt(v@[j].0@, name@),
        decreases v@.len() - i,
    {
        match name_order(v[i].0.as_str(), name) {
            NameOrder::Before => {},
            NameOrder::Same => {
                return Ok(i);
            },
            NameOrder::After => {
                proof {
                    assert forall|j: int| i <= j < v@.len() implies name_lt(name@, v@[j].0@) by {
                        if j > i {
                            assert(table_names(v@)[i as int] == v@[i as int].0@);
                            assert(table_names(v@)[j] == v@[j].0@);
                            lemma_name_lt_transitive(name@, v@[i as int].0@, v@[j].0@);
                        }
                    }
                }
                return Err(i);
            },
        }
        i = i + 1;
    }
    Err(i)
}

/// Inserting a table at the place its absent name belongs keeps the names increasing and adds
/// the name to the map.
pub proof fn lemma_insert_at<T>(v: Seq<(String, Vec<T>)>, i: int, x: (String, Vec<T>))
    requires
        tables_wf(v),
        0 <= i <= v.len(),
        forall|j: int| 0 <= j < i ==> name_lt(v[j].0@, x.0@),
        forall|j: int| i <= j < v.len() ==> name_lt(x.0@, v[j].0@),
    ensures
        tables_wf(v.insert(i, x)),
        tables_map(v.insert(i, x)) == tables_map(v).insert(x.0@, x.1@),
        !tables_map(v).contains_key(x.0@),
{
    let w = v.insert(i, x);
    let nv = table_names(v);
    let nw = table_names(w);
    assert forall|a: int, b: int| 0 <= a < b < nw.len() implies name_lt(
        #[trigger] nw[a],
        #[trigger] nw[b],
    ) by {
        assert(nw[a] == w[a].0@ && nw[b] == w[b].0@);
        if a < i && b < i {
            assert(nv[a] == v[a].0@ && nv[b] == v[b].0@);
        } else if a < i && b == i {
        } else if a < i {
            lemma_name_lt_transitive(v[a].0@, x.0@, v[b - 1].0@);
        } else if a == i {
        } else {
            assert(nv[a - 1] == v[a - 1].0@ && nv[b - 1] == v[b - 1].0@);
        }
    }
    lemma_tables_map_keys(v);
    lemma_tables_map_keys(w);
    assert(!tables_map(v).contains_key(x.0@)) by {
        if nv.contains(x.0@) {
            let j = choose|j: int| 0 <= j < nv.len() && nv[j] == x.0@;
            assert(nv[j] == v[j].0@);
            if j < i {
                lemma_name_lt_differ(v[j].0@, x.0@);
            } else {
                lemma_name_lt_differ(x.0@, v[j].0@);
            }
        }
    }
    let mv = tables_map(v).insert(x.0@, x.1@);
    assert forall|k: Seq<char>| #[trigger] tables_map(w).contains_key(k) <==> mv.contains_key(k) by {
        if nw.contains(k) {
            let j = choose|j: int| 0 <= j < nw.len() && nw[j] == k;
            assert(nw[j] == w[j].0@);
            if j < i {
                assert(nv[j] == v[j].0@);
            } else if j > i {
                assert(nv[j - 1] == v[j - 1].0@);
            }
        }
        if nv.contains(k) {
            let j = choose|j: int| 0 <= j < nv.len() && nv[j] == k;
            assert(nv[j] == v[j].0@);
            if j < i {
                assert(nw[j] == w[j].0@);
            } else {
                assert(nw[j + 1] == w[j + 1].0@);
            }
        }
        if k == x.0@ {
            assert(nw[i] == w[i].0@);
        }
    }
    assert forall|k: Seq<char>| #[trigger] tables_map(w).contains_key(k) implies tables_map(w)[k]
        == mv[k] by {
        let j = choose|j: int| 0 <= j < nw.len() && nw[j] == k;
        assert(nw[j] == w[j].0@);
        assert(tables_map(w)[w[j].0@] == w[j].1@);
        if j < i {
            assert(tables_map(v)[v[j].0@] == v[j].1@);
            lemma_name_lt_differ(v[j].0@, x.0@);
        } else if j > i {
            assert(tables_map(v)[v[j - 1].0@] == v[j - 1].1@);
            lemma_name_lt_differ(x.0@, v[j - 1].0@);
        }
    }
    assert(tables_map(w) =~= mv);
}

/// Replacing the table at `i`, under the same name, keeps the names and updates the map.
pub proof fn lemma_replace_at<T>(v: Seq<(String, Vec<T>)>, i: int, t: Vec<T>)
    requires
        tables_wf(v),
        0 <= i < v.len(),
    ensures
        tables_wf(v.update(i, (v[i].0, t))),
        tables_map(v.update(i, (v[i].0, t))) == tables_map(v).insert(v[i].0@, t@),
        tables_map(v).contains_key(v[i].0@),
{
    let w = v.update(i, (v[i].0, t));
    assert(table_names(w) =~= table_names(v));
    lemma_tables_map_keys(v);
    lemma_tables_map_keys(w);
    assert(table_names(v)[i] == v[i].0@);
    let mv = tables_map(v).insert(v[i].0@, t@);
    assert forall|k: Seq<char>| #[trigger] tables_map(w).contains_key(k) implies tables_map(w)[k]
        == mv[k] by {
        let j = choose|j: int| 0 <= j < table_names(w).len() && table_names(w)[j] == k;
        assert(table_names(w)[j] == w[j].0@);
        assert(tables_map(w)[w[j].0@] == w[j].1@);
        if j != i {
            assert(tables_map(v)[v[j].0@] == v[j].1@);
            assert(table_names(v)[j] == v[j].0@);
            if j < i {
                lemma_name_lt_differ(v[j].0@, v[i].0@);
            } else {
                lemma_name_lt_differ(v[i].0@, v[j].0@);
            }
        }
    }
    assert(tables_map(w) =~= mv);
}

/// Sets the table of `name` to an empty one, adding the name when it is new. Returns whether
/// the name was there before, and the index of its table.
pub(crate) fn reset_table<T>(v: &mut Vec<(String, Vec<T>)>, name: &str) -> (r: (bool, usize))
    requires
        tables_wf(old(v)@),
    ensures
        tables_wf(final(v)@),
        r.0 == tables_map(old(v)@).contains_key(name@),
        r.1 < final(v)@.len(),
        final(v)@[r.1 as int].0@ == name@,
        final(v)@[r.1 as int].1@ == Seq::<T>::empty(),
        tables_map(final(v)@) == tables_map(old(v)@).insert(name@, Seq::<T>::empty()),
{
    match find_table(v, name) {
        Ok(i) => {
            let empty: Vec<T> = Vec::new();
            proof {
                lemma_replace_at(v@, i as int, empty);
            }
            let ghost before = v@;
            let ghost e = empty;
            v[i].1 = empty;
            proof {
                assert(v@ =~= before.update(i as int, (before[i as int].0, e)));
            }
            (true, i)
        },
        Err(i) => {
            let key = String::from_str(name);
            let empty: Vec<T> = Vec::new();
            proof {
                lemma_insert_at(v@, i as int, (key, empty));
            }
            v.insert(i, (key, empty));
            (false, i)
        },
    }
}

/// Puts `table` under `name`, replacing any table of that name.
pub(crate) fn put_table<T>(v: &mut Vec<(String, Vec<T>)>, name: String, table: Vec<T>)
    requires
        tables_wf(old(v)@),
    ensures
        tables_wf(final(v)@),
        tables_map(final(v)@) == tables_map(old(v)@).insert(name@, table@),
{
    match find_table(v, name.as_str()) {
        Ok(i) => {
            proof {
                lemma_replace_at(v@, i as int, table);
            }
            let ghost before = v@;
            let ghost t = table;
            v[i].1 = table;
            proof {
                assert(v@ =~= before.update(i as int, (before[i as int].0, t)));
            }
        },
        Err(i) => {
            proof {
                lemma_insert_at(v@, i as int, (name, table));
            }
            v.insert(i, (name, table));
        },
    }
}

} // verus!
