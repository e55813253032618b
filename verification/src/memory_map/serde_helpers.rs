//! The value-level rules behind the document's lenient number and string notations, and the
//! enumeration map of enum fields.
use std::collections::BTreeMap;
use vstd::prelude::*;
use vstd::std_specs::btree::increasing_seq;
use vstd::std_specs::cmp::OrdSpec;
use vstd::std_specs::iter::IteratorSpec;
use vstd::string::*;
use crate::memory_map::text::{digits, pad_zeros, push_digits, push_padded_digits};

verus! {

/// The smallest key of a finite, nonempty key set.
pub open spec fn min_key(keys: Set<u64>) -> u64 {
    choose|k: u64| keys.contains(k) && forall|j: u64| keys.contains(j) ==> k <= j
}

/// The largest key of a finite, nonempty key set.
pub open spec fn max_key(keys: Set<u64>) -> u64 {
    choose|k: u64| keys.contains(k) && forall|j: u64| keys.contains(j) ==> j <= k
}

/// A finite, nonempty set of keys has a smallest and a largest key.
pub proof fn lemma_min_max_exist(keys: Set<u64>)
    requires
        keys.finite(),
        keys.len() > 0,
    ensures
        keys.contains(min_key(keys)),
        forall|j: u64| keys.contains(j) ==> min_key(keys) <= j,
        keys.contains(max_key(keys)),
        forall|j: u64| keys.contains(j) ==> j <= max_key(keys),
    decreases keys.len(),
{
    let x = keys.choose();
    assert(keys.contains(x));
    let rest = keys.remove(x);
    if rest.len() == 0 {
        assert forall|j: u64| keys.contains(j) implies j == x by {
            if j != x {
                assert(rest.contains(j));
            }
        }
        assert(keys.contains(x) && forall|j: u64| keys.contains(j) ==> x <= j);
        assert(keys.contains(x) && forall|j: u64| keys.contains(j) ==> j <= x);
    } else {
        lemma_min_max_exist(rest);
        let lo = min_key(rest);
        let hi = max_key(rest);
        if x < lo {
            assert(keys.contains(x) && forall|j: u64| keys.contains(j) ==> x <= j) by {
                assert forall|j: u64| keys.contains(j) implies x <= j by {
                    if j != x {
                        assert(rest.contains(j));
                    }
                }
            }
        } else {
            assert(keys.contains(lo) && forall|j: u64| keys.contains(j) ==> lo <= j) by {
                assert forall|j: u64| keys.contains(j) implies lo <= j by {
                    if j != x {
                        assert(rest.contains(j));
                    }
                }
            }
        }
        if x > hi {
            assert(keys.contains(x) && forall|j: u64| keys.contains(j) ==> j <= x) by {
                assert forall|j: u64| keys.contains(j) implies j <= x by {
                    if j != x {
                        assert(rest.contains(j));
                    }
                }
            }
        } else {
            assert(keys.contains(hi) && forall|j: u64| keys.contains(j) ==> j <= hi) by {
                assert forall|j: u64| keys.contains(j) implies j <= hi by {
                    if j != x {
                        assert(rest.contains(j));
                    }
                }
            }
        }
    }
}

/// The entries of a finite map, ordered by increasing key.
#[verifier::opaque]
pub open spec fn sorted_entries(m: Map<u64, Seq<char>>) -> Seq<(u64, Seq<char>)>
    decreases m.dom().len(),
    when m.dom().finite()
{
    if m.dom().len() == 0 {
        Seq::empty()
    } else {
        let k = min_key(m.dom());
        proof {
            lemma_min_max_exist(m.dom());
        }
        seq![(k, m[k])] + sorted_entries(m.remove(k))
    }
}

/// One step of the ordered enumeration: the entry of the smallest key, then the rest.
pub proof fn lemma_sorted_entries_step(m: Map<u64, Seq<char>>)
    requires
        m.dom().finite(),
    ensures
        m.dom().len() == 0 ==> sorted_entries(m) == Seq::<(u64, Seq<char>)>::empty(),
        m.dom().len() > 0 ==> sorted_entries(m) == seq![(min_key(m.dom()), m[min_key(m.dom())])]
            + sorted_entries(m.remove(min_key(m.dom()))),
{
    reveal(sorted_entries);
}

/// Keys that strictly increase along a sequence of entries.
#[verifier::opaque]
pub open spec fn keys_increase(s: Seq<(u64, Seq<char>)>) -> bool {
    forall|i: int, j: int| 0 <= i < j < s.len() ==> s[i].0 < s[j].0
}

/// Every entry of `s` is an entry of `m`.
#[verifier::opaque]
pub open spec fn entries_within(s: Seq<(u64, Seq<char>)>, m: Map<u64, Seq<char>>) -> bool {
    forall|i: int| 0 <= i < s.len() ==> m.contains_key(#[trigger] s[i].0) && m[s[i].0] == s[i].1
}

/// Every key of `m` is the key of some entry of `s`.
#[verifier::opaque]
pub open spec fn keys_covered(s: Seq<(u64, Seq<char>)>, m: Map<u64, Seq<char>>) -> bool {
    forall|k: u64| #[trigger] m.contains_key(k) ==> exists|i: int| 0 <= i < s.len() && s[i].0 == k
}

/// The first entry of an increasing sequence that covers the keys of `m` has the smallest key.
proof fn lemma_first_is_min(s: Seq<(u64, Seq<char>)>, m: Map<u64, Seq<char>>)
    requires
        m.dom().finite(),
        s.len() > 0,
        keys_increase(s),
        entries_within(s, m),
        keys_covered(s, m),
    ensures
        m.dom().len() > 0,
        s[0].0 == min_key(m.dom()),
{
    reveal(keys_increase);
    reveal(entries_within);
    reveal(keys_covered);
    assert(m.contains_key(s[0].0));
    assert(m.dom().contains(s[0].0));
    lemma_min_max_exist(m.dom());
    let k = min_key(m.dom());
    assert(m.contains_key(k));
    let idx = choose|i: int| 0 <= i < s.len() && s[i].0 == k;
    if idx != 0 {
        assert(s[0].0 < s[idx].0);
    }
}

/// Dropping the first entry of such a sequence leaves one for the map without that key.
proof fn lemma_rest_covers(s: Seq<(u64, Seq<char>)>, m: Map<u64, Seq<char>>)
    requires
        s.len() > 0,
        keys_increase(s),
        entries_within(s, m),
        keys_covered(s, m),
    ensures
        keys_increase(s.drop_first()),
        entries_within(s.drop_first(), m.remove(s[0].0)),
        keys_covered(s.drop_first(), m.remove(s[0].0)),
{
    reveal(keys_increase);
    reveal(entries_within);
    reveal(keys_covered);
    let k = s[0].0;
    let rest = s.drop_first();
    let mr = m.remove(k);
    assert forall|kk: u64| #[trigger] mr.contains_key(kk) implies exists|i: int|
        0 <= i < rest.len() && rest[i].0 == kk by {
        assert(m.contains_key(kk));
        let i = choose|i: int| 0 <= i < s.len() && s[i].0 == kk;
        assert(i != 0);
        assert(rest[i - 1] == s[i]);
    }
    assert forall|i: int| 0 <= i < rest.len() implies mr.contains_key(#[trigger] rest[i].0)
        && mr[rest[i].0] == rest[i].1 by {
        assert(rest[i] == s[i + 1]);
        assert(s[0].0 < s[i + 1].0);
        assert(m.contains_key(s[i + 1].0));
    }
    assert forall|i: int, j: int| 0 <= i < j < rest.len() implies rest[i].0 < rest[j].0 by {
        assert(rest[i] == s[i + 1] && rest[j] == s[j + 1]);
    }
}

/// A sequence of entries whose keys strictly increase and which holds exactly the entries of
/// `m` is the ordered enumeration of `m`.
pub proof fn lemma_sorted_entries_unique(s: Seq<(u64, Seq<char>)>, m: Map<u64, Seq<char>>)
    requires
        m.dom().finite(),
        keys_increase(s),
        entries_within(s, m),
        keys_covered(s, m),
    ensures
        s == sorted_entries(m),
    decreases s.len(),
{
    if s.len() == 0 {
        assert(m.dom() =~= Set::empty()) by {
            reveal(keys_covered);
        }
        assert(m.dom().len() == 0);
        lemma_sorted_entries_step(m);
    } else {
        lemma_first_is_min(s, m);
        lemma_rest_covers(s, m);
        let k = s[0].0;
        lemma_sorted_entries_unique(s.drop_first(), m.remove(k));
        assert(m.contains_key(k) && s[0].1 == m[k]) by {
            reveal(entries_within);
        }
        lemma_sorted_entries_step(m);
        assert(s =~= seq![(k, m[k])] + s.drop_first());
    }
}

/// The ordered enumeration of a finite map has strictly increasing keys, holds only entries
/// of the map, covers every key, and has one entry per key.
pub proof fn lemma_sorted_entries_props(m: Map<u64, Seq<char>>)
    requires
        m.dom().finite(),
    ensures
        keys_increase(sorted_entries(m)),
        entries_within(sorted_entries(m), m),
        keys_covered(sorted_entries(m), m),
        sorted_entries(m).len() == m.dom().len(),
    decreases m.dom().len(),
{
    lemma_sorted_entries_step(m);
    reveal(keys_increase);
    reveal(entries_within);
    reveal(keys_covered);
    if m.dom().len() > 0 {
        lemma_min_max_exist(m.dom());
        let k = min_key(m.dom());
        let mr = m.remove(k);
        lemma_sorted_entries_props(mr);
        let t = sorted_entries(mr);
        let s = sorted_entries(m);
        assert(s == seq![(k, m[k])] + t);
        assert forall|i: int| 0 <= i < s.len() implies m.contains_key(#[trigger] s[i].0) && m[s[i].0]
            == s[i].1 by {
            if i > 0 {
                assert(s[i] == t[i - 1]);
                assert(mr.contains_key(t[i - 1].0));
            }
        }
        assert forall|i: int, j: int| 0 <= i < j < s.len() implies s[i].0 < s[j].0 by {
            assert(s[j] == t[j - 1]);
            assert(mr.contains_key(t[j - 1].0));
            if i > 0 {
                assert(s[i] == t[i - 1]);
            }
        }
        assert forall|kk: u64| #[trigger] m.contains_key(kk) implies exists|i: int|
            0 <= i < s.len() && s[i].0 == kk by {
            if kk == k {
                assert(s[0].0 == kk);
            } else {
                assert(mr.contains_key(kk));
                let i = choose|i: int| 0 <= i < t.len() && t[i].0 == kk;
                assert(s[i + 1] == t[i]);
            }
        }
    } else {
        assert(m.dom() =~= Set::empty());
    }
}

/// Keys of an increasing sequence strictly increase.
proof fn lemma_increasing_keys(s: Seq<u64>)
    requires
        increasing_seq(s),
    ensures
        forall|i: int, j: int| 0 <= i < j < s.len() ==> s[i] < s[j],
{
    broadcast use vstd::std_specs::btree::group_btree_axioms, vstd::laws_cmp::group_laws_cmp;

    assert forall|i: int, j: int| 0 <= i < j < s.len() implies s[i] < s[j] by {
        assert(s[i].cmp_spec(&s[j]) is Less);
    }
}

/// The names of the values of an enumerated field type, keyed by the number that encodes each.
pub struct EnumMap(pub BTreeMap<u64, String>);

impl View for EnumMap {
    type V = Map<u64, Seq<char>>;

    open spec fn view(&self) -> Map<u64, Seq<char>> {
        self.0@.map_values(|s: String| s@)
    }
}

/// The label that shows an enumeration key: binary when every key is below two, hexadecimal
/// when every key is below sixteen, else hexadecimal padded with zeros to `width` digits.
pub open spec fn enum_key_text(key: u64, max: u64, width: nat) -> Seq<char> {
    if max < 2 {
        seq!['0', 'b'] + digits(key as nat, 2)
    } else if max < 16 {
        seq!['0', 'x'] + digits(key as nat, 16)
    } else {
        seq!['0', 'x'] + pad_zeros(digits(key as nat, 16), width)
    }
}

/// One line per entry: the key's label, a colon, the value and a line break.
pub open spec fn enum_lines(entries: Seq<(u64, Seq<char>)>, max: u64, width: nat) -> Seq<char>
    decreases entries.len(),
{
    if entries.len() == 0 {
        Seq::empty()
    } else {
        let last = entries.last();
        enum_lines(entries.drop_last(), max, width) + enum_key_text(last.0, max, width) + seq![
            ':',
            ' ',
        ] + last.1 + seq!['<', 'b', 'r', '>']
    }
}

/// The text of an enumeration map: its entries in increasing key order, labelled according to
/// the largest key; empty for an empty map.
pub open spec fn enum_map_text(m: Map<u64, Seq<char>>, width: nat) -> Seq<char> {
    if m.dom().len() == 0 {
        Seq::empty()
    } else {
        enum_lines(sorted_entries(m), max_key(m.dom()), width)
    }
}

impl EnumMap {
    /// The map's entries in increasing key order, each value borrowed from the map.
    pub fn entries(&self) -> (v: Vec<(u64, &String)>)
        ensures
            v@.map_values(|p: (u64, &String)| (p.0, p.1@)) == sorted_entries(self@),
    {
        broadcast use vstd::std_specs::btree::group_btree_axioms, vstd::laws_cmp::group_laws_cmp;

        let mut v: Vec<(u64, &String)> = Vec::new();
        let iter = self.0.iter();
        proof {
            let keys = iter.remaining().map_values(|kv: (&u64, &String)| *kv.0);
            lemma_increasing_keys(keys);
            assert forall|i: int, j: int| 0 <= i < j < iter.remaining().len() implies *iter.remaining()[i].0
                < *iter.remaining()[j].0 by {
                assert(keys[i] == *iter.remaining()[i].0);
                assert(keys[j] == *iter.remaining()[j].0);
            }
        }
        for kv in it: iter
            invariant
                v@.len() == it.index(),
                it.seq().len() == self.0@.dom().len(),
                forall|i: int| 0 <= i < v@.len() ==> v@[i].0 == *it.seq()[i].0 && v@[i].1 == it.seq()[i].1,
                forall|k: u64| self.0@.contains_key(k) ==> exists|i: int| 0 <= i < it.seq().len() && *it.seq()[i].0 == k,
                forall|i: int, j: int| 0 <= i < j < it.seq().len() ==> *it.seq()[i].0 < *it.seq()[j].0,
                forall|i: int| 0 <= i < it.seq().len() ==> self.0@.contains_key(*it.seq()[i].0) && self.0@[*it.seq()[i].0] == *it.seq()[i].1,
                forall|i: int, j: int| 0 <= i < j < v@.len() ==> v@[i].0 < v@[j].0,
                forall|i: int| 0 <= i < v@.len() ==> self.0@.contains_key(v@[i].0) && self.0@[v@[i].0] == *v@[i].1,
                v@.len() == self.0@.dom().len() ==> forall|k: u64| self.0@.contains_key(k) ==> exists|i: int| 0 <= i < v@.len() && v@[i].0 == k,
        {
            v.push((*kv.0, kv.1));
            proof {
                if v@.len() == self.0@.dom().len() {
                    assert forall|k: u64| self.0@.contains_key(k) implies exists|i: int|
                        0 <= i < v@.len() && v@[i].0 == k by {
                        let i = choose|i: int| 0 <= i < it.seq().len() && *it.seq()[i].0 == k;
                        assert(v@[i].0 == *it.seq()[i].0);
                    }
                }
            }
        }
        let ghost s = v@.map_values(|p: (u64, &String)| (p.0, p.1@));
        proof {
            reveal(keys_increase);
            reveal(entries_within);
            reveal(keys_covered);
            assert(v@.len() == self.0@.dom().len());
            assert(keys_increase(s)) by {
                assert forall|i: int, j: int| 0 <= i < j < s.len() implies s[i].0 < s[j].0 by {
                    assert(s[i].0 == v@[i].0 && s[j].0 == v@[j].0);
                }
            }
            assert(entries_within(s, self@)) by {
                assert forall|i: int| 0 <= i < s.len() implies self@.contains_key(#[trigger] s[i].0)
                    && self@[s[i].0] == s[i].1 by {
                    assert(s[i] == (v@[i].0, v@[i].1@));
                    assert(self.0@.contains_key(v@[i].0));
                }
            }
            assert(keys_covered(s, self@)) by {
                assert forall|k: u64| #[trigger] self@.contains_key(k) implies exists|i: int|
                    0 <= i < s.len() && s[i].0 == k by {
                    assert(self.0@.contains_key(k));
                    let i = choose|i: int| 0 <= i < v@.len() && v@[i].0 == k;
                    assert(s[i].0 == k);
                }
            }
            assert(self@.dom() =~= self.0@.dom());
            lemma_sorted_entries_unique(s, self@);
        }
        v
    }

    /// Whether some value is named by `key`.
    pub fn contains_key(&self, key: u64) -> (r: bool)
        ensures
            r == self@.contains_key(key),
    {
        broadcast use vstd::std_specs::btree::group_btree_axioms, vstd::laws_cmp::group_laws_cmp;

        self.0.contains_key(&key)
    }

    /// Whether `name` is the name of some value.
    pub fn contains_value(&self, name: &String) -> (r: bool)
        ensures
            r == exists|k: u64| self@.contains_key(k) && self@[k] == name@,
    {
        let v = self.entries();
        let ghost s = v@.map_values(|p: (u64, &String)| (p.0, p.1@));
        proof {
            broadcast use vstd::std_specs::btree::group_btree_axioms;

            assert(self@.dom() =~= self.0@.dom());
            lemma_sorted_entries_props(self@);
            reveal(entries_within);
            reveal(keys_covered);
        }
        let mut i: usize = 0;
        while i < v.len()
            invariant
                i <= v@.len(),
                s == v@.map_values(|p: (u64, &String)| (p.0, p.1@)),
                entries_within(s, self@),
                forall|j: int| 0 <= j < i ==> s[j].1 != name@,
            decreases v@.len() - i,
        {
            if *v[i].1 == *name {
                proof {
                    reveal(entries_within);
                    assert(s[i as int].1 == name@);
                    assert(self@.contains_key(s[i as int].0));
                }
                return true;
            }
            i = i + 1;
        }
        proof {
            assert forall|k: u64| self@.contains_key(k) implies self@[k] != name@ by {
                let j = choose|j: int| 0 <= j < s.len() && s[j].0 == k;
                assert(self@[s[j].0] == s[j].1);
            }
        }
        false
    }

    /// The value of the smallest key, if the map has any.
    pub fn first_value(&self) -> (r: Option<&String>)
        ensures
            r is None <==> self@.dom().len() == 0,
            r matches Some(v) ==> self@.dom().len() > 0 && v@ == self@[min_key(self@.dom())],
    {
        let v = self.entries();
        proof {
            broadcast use vstd::std_specs::btree::group_btree_axioms;

            assert(self@.dom() =~= self.0@.dom());
            lemma_sorted_entries_props(self@);
            lemma_sorted_entries_step(self@);
        }
        if v.len() == 0 {
            None
        } else {
            proof {
                assert(v@.map_values(|p: (u64, &String)| (p.0, p.1@))[0] == (v@[0].0, v@[0].1@));
            }
            Some(v[0].1)
        }
    }

    /// The largest key, if the map has any.
    pub fn max_key(&self) -> (r: Option<u64>)
        ensures
            r is None <==> self@.dom().len() == 0,
            r matches Some(k) ==> self@.dom().len() > 0 && k == max_key(self@.dom()),
    {
        let v = self.entries();
        let ghost s = v@.map_values(|p: (u64, &String)| (p.0, p.1@));
        proof {
            broadcast use vstd::std_specs::btree::group_btree_axioms;

            assert(self@.dom() =~= self.0@.dom());
            lemma_sorted_entries_props(self@);
        }
        if v.len() == 0 {
            None
        } else {
            let k = v[v.len() - 1].0;
            proof {
                reveal(keys_increase);
                reveal(entries_within);
                reveal(keys_covered);
                let n = s.len() - 1;
                assert(s[n].0 == k);
                lemma_min_max_exist(self@.dom());
                let hi = max_key(self@.dom());
                let j = choose|j: int| 0 <= j < s.len() && s[j].0 == hi;
                if j < n {
                    assert(s[j].0 < s[n].0);
                    assert(self@.contains_key(s[n].0));
                }
                assert(self@.contains_key(k));
            }
            Some(k)
        }
    }

    /// The map as text, one line per entry in increasing key order. Keys are shown in binary
    /// when all are below two, in hexadecimal when all are below sixteen, and otherwise in
    /// hexadecimal padded with zeros to `width` digits.
    pub fn display_text(&self, width: usize) -> (r: String)
        ensures
            r@ == enum_map_text(self@, width as nat),
    {
        let v = self.entries();
        let ghost s = v@.map_values(|p: (u64, &String)| (p.0, p.1@));
        let mut out = String::new();
        if v.len() == 0 {
            proof {
                broadcast use vstd::std_specs::btree::group_btree_axioms;

                assert(self@.dom() =~= self.0@.dom());
                lemma_sorted_entries_props(self@);
            }
            return out;
        }
        let max = match self.max_key() {
            Some(k) => k,
            None => 0,
        };
        proof {
            broadcast use vstd::std_specs::btree::group_btree_axioms;

            assert(self@.dom() =~= self.0@.dom());
            lemma_sorted_entries_props(self@);
            reveal_strlit("0b");
            reveal_strlit("0x");
            reveal_strlit(": ");
            reveal_strlit("<br>");
        }
        let mut i: usize = 0;
        while i < v.len()
            invariant
                i <= v@.len(),
                v@.len() > 0,
                self@.dom().finite(),
                self@.dom().len() > 0,
                max == max_key(self@.dom()),
                s == v@.map_values(|p: (u64, &String)| (p.0, p.1@)),
                s == sorted_entries(self@),
                out@ == enum_lines(s.take(i as int), max, width as nat),
            decreases v@.len() - i,
        {
            let key = v[i].0;
            let ghost prev = out@;
            proof {
                reveal_strlit("0b");
                reveal_strlit("0x");
                reveal_strlit(": ");
                reveal_strlit("<br>");
            }
            if max < 2 {
                out.append("0b");
                push_digits(&mut out, key, 2);
            } else if max < 16 {
                out.append("0x");
                push_digits(&mut out, key, 16);
            } else {
                out.append("0x");
                push_padded_digits(&mut out, key, 16, width);
            }
            out.append(": ");
            out.append(v[i].1.as_str());
            out.append("<br>");
            proof {
                let t = s.take(i + 1);
                assert(t.drop_last() =~= s.take(i as int));
                assert(t.last() == s[i as int]);
                assert(s[i as int] == (key, v@[i as int].1@));
                assert(out@ =~= prev + enum_key_text(key, max, width as nat) + seq![':', ' ']
                    + v@[i as int].1@ + seq!['<', 'b', 'r', '>']);
            }
            i = i + 1;
        }
        proof {
            assert(s.take(v@.len() as int) =~= s);
        }
        out
    }
}

/// The value of a hexadecimal digit of either case, or `None` for any other character.
pub open spec fn hex_digit_value(c: char) -> Option<nat> {
    let u = c as u32;
    if 48 <= u <= 57 {
        Some((u - 48) as nat)
    } else if 65 <= u <= 70 {
        Some((u - 55) as nat)
    } else if 97 <= u <= 102 {
        Some((u - 87) as nat)
    } else {
        None
    }
}

/// The number that a run of hexadecimal digits spells, or `None` when some character is not a
/// hexadecimal digit.
pub open spec fn hex_number(s: Seq<char>) -> Option<nat>
    decreases s.len(),
{
    if s.len() == 0 {
        Some(0)
    } else {
        match (hex_number(s.drop_last()), hex_digit_value(s.last())) {
            (Some(a), Some(d)) => Some(a * 16 + d),
            _ => None,
        }
    }
}

/// An unsigned 64-bit number read from hexadecimal digits that may follow one `+` sign: `None`
/// when there is no digit, a character is not a hexadecimal digit, or the number exceeds
/// `u64::MAX`.
pub open spec fn hex_u64(s: Seq<char>) -> Option<u64> {
    let ds = if s.len() > 0 && s[0] == '+' {
        s.drop_first()
    } else {
        s
    };
    if ds.len() == 0 {
        None
    } else {
        match hex_number(ds) {
            Some(n) => if n <= u64::MAX {
                Some(n as u64)
            } else {
                None
            },
            None => None,
        }
    }
}

/// `s` with every `_` removed.
pub open spec fn without_underscores(s: Seq<char>) -> Seq<char>
    decreases s.len(),
{
    if s.len() == 0 {
        s
    } else if s.last() == '_' {
        without_underscores(s.drop_last())
    } else {
        without_underscores(s.drop_last()).push(s.last())
    }
}

/// The number that a `0x`-prefixed hexadecimal string denotes, with `_` allowed anywhere after
/// the prefix; `None` when there is no such prefix or the rest does not denote a `u64`.
pub open spec fn hex_str_value(s: Seq<char>) -> Option<u64> {
    if s.len() >= 2 && s[0] == '0' && s[1] == 'x' {
        hex_u64(without_underscores(s.subrange(2, s.len() as int)))
    } else {
        None
    }
}

/// The hexadecimal digit value of `c`, if it is one.
fn hex_digit(c: char) -> (r: Option<u64>)
    ensures
        r matches Some(d) ==> hex_digit_value(c) == Some(d as nat) && d < 16,
        r is None ==> hex_digit_value(c) is None,
{
    let u = c as u32;
    if 48 <= u && u <= 57 {
        Some((u - 48) as u64)
    } else if 65 <= u && u <= 70 {
        Some((u - 55) as u64)
    } else if 97 <= u && u <= 102 {
        Some((u - 87) as u64)
    } else {
        None
    }
}

/// Reads an unsigned 64-bit number from hexadecimal digits that may follow one `+` sign.
fn parse_hex_u64(s: &Vec<char>) -> (r: Option<u64>)
    ensures
        r == hex_u64(s@),
{
    let n = s.len();
    if n == 0 {
        return None;
    }
    let start: usize = if s[0] == '+' {
        1
    } else {
        0
    };
    if start == n {
        return None;
    }
    let ghost ds = s@.subrange(start as int, n as int);
    proof {
        if start == 1 {
            assert(ds =~= s@.drop_first());
        } else {
            assert(ds =~= s@);
        }
    }
    let mut valid = true;
    let mut big = false;
    let mut value: u64 = 0;
    let mut i: usize = start;
    while i < n
        invariant
            start <= i <= n,
            n == s@.len(),
            ds == s@.subrange(start as int, n as int),
            valid == hex_number(s@.subrange(start as int, i as int)) is Some,
            valid && !big ==> hex_number(s@.subrange(start as int, i as int)) == Some(value as nat),
            valid && big ==> hex_number(s@.subrange(start as int, i as int))->0 > u64::MAX,
        decreases n - i,
    {
        let ghost pre = s@.subrange(start as int, i as int);
        let ghost post = s@.subrange(start as int, i + 1);
        proof {
            assert(post.drop_last() =~= pre);
            assert(post.last() == s@[i as int]);
        }
        match hex_digit(s[i]) {
            None => {
                valid = false;
            },
            Some(d) => {
                if valid && !big {
                    if value > (u64::MAX - d) / 16 {
                        big = true;
                        proof {
                            assert(value * 16 + d > u64::MAX) by (nonlinear_arith)
                                requires
                                    value > (u64::MAX - d) / 16,
                                    d < 16,
                            ;
                        }
                    } else {
                        proof {
                            assert(value * 16 + d <= u64::MAX) by (nonlinear_arith)
                                requires
                                    value <= (u64::MAX - d) / 16,
                                    d < 16,
                            ;
                        }
                        value = value * 16 + d;
                    }
                } else if valid && big {
                    proof {
                        let a = hex_number(pre)->0;
                        assert(a * 16 + d > u64::MAX) by (nonlinear_arith)
                            requires
                                a > u64::MAX,
                        ;
                    }
                }
            },
        }
        i = i + 1;
    }
    proof {
        assert(s@.subrange(start as int, n as int) == ds);
    }
    if valid && !big {
        Some(value)
    } else {
        None
    }
}

/// The lenient notation for unsigned numbers: a JSON/TOML unsigned or nonnegative integer, or a
/// `0x`-prefixed hexadecimal string with `_` allowed between digits.
pub struct HexStrOrUnsigned;

/// The notation for list entries that are either integers or strings; integers become their
/// decimal text.
pub struct IntegerOrString;

impl HexStrOrUnsigned {
    /// A signed integer is accepted when it is not negative.
    pub fn visit_i64(val: i64) -> (r: Option<u64>)
        ensures
            r == (if val >= 0 {
                Some(val as u64)
            } else {
                None
            }),
    {
        if val >= 0 {
            Some(val as u64)
        } else {
            None
        }
    }

    /// An unsigned integer is taken as it is.
    pub fn visit_u64(val: u64) -> (r: u64)
        ensures
            r == val,
    {
        val
    }

    /// A string is accepted when it is `0x` followed by hexadecimal digits, which may be
    /// separated by `_` and preceded by one `+`, and the number fits in 64 bits.
    pub fn visit_str(val: &str) -> (r: Option<u64>)
        ensures
            r == hex_str_value(val@),
    {
        broadcast use vstd::string::group_string_axioms;

        let total = val.unicode_len();
        let mut kept: Vec<char> = Vec::new();
        let mut prefix_ok = true;
        let mut idx: usize = 0;
        for c in it: val.chars()
            invariant
                idx == it.index(),
                it.seq() == val@,
                val@.len() == total,
                prefix_ok == ((idx >= 1 ==> val@[0] == '0') && (idx >= 2 ==> val@[1] == 'x')),
                idx >= 2 ==> kept@ == without_underscores(val@.subrange(2, idx as int)),
                idx < 2 ==> kept@.len() == 0,
        {
            if idx == 0 {
                prefix_ok = c == '0';
            } else if idx == 1 {
                prefix_ok = prefix_ok && c == 'x';
                proof {
                    assert(val@.subrange(2, 2) =~= Seq::<char>::empty());
                }
            } else {
                proof {
                    let t = val@.subrange(2, idx + 1);
                    assert(t.drop_last() =~= val@.subrange(2, idx as int));
                    assert(t.last() == c);
                }
                if c != '_' {
                    kept.push(c);
                }
            }
            idx = idx + 1;
        }
        if idx >= 2 && prefix_ok {
            parse_hex_u64(&kept)
        } else {
            None
        }
    }
}

impl IntegerOrString {
    /// An integer becomes its decimal text.
    pub fn visit_u64(val: u64) -> (r: String)
        ensures
            r@ == digits(val as nat, 10),
    {
        let mut out = String::new();
        push_digits(&mut out, val, 10);
        out
    }

    /// A string is taken as it is.
    pub fn visit_str(val: &str) -> (r: String)
        ensures
            r@ == val@,
    {
        String::from_str(val)
    }
}

/// The characters that show digit values are hexadecimal digits of those values.
pub proof fn lemma_digit_char_value(d: nat)
    requires
        d < 16,
    ensures
        hex_digit_value(crate::memory_map::text::digit_char(d)) == Some(d),
        crate::memory_map::text::digit_char(d) != '_',
        crate::memory_map::text::digit_char(d) != '+',
{
    let s = seq!['0', '1', '2', '3', '4', '5', '6', '7', '8', '9', 'A', 'B', 'C', 'D', 'E', 'F'];
    assert(crate::memory_map::text::digit_char(d) == s[d as int]);
}

/// The digits of a number in base sixteen read back as that number.
pub proof fn lemma_hex_digits_value(n: nat)
    ensures
        hex_number(digits(n, 16)) == Some(n),
        without_underscores(digits(n, 16)) == digits(n, 16),
        digits(n, 16).len() > 0,
        digits(n, 16)[0] != '+',
    decreases n,
{
    let d = digits(n, 16);
    if n >= 16 {
        lemma_hex_digits_value(n / 16);
        lemma_digit_char_value(n % 16);
        assert(d.drop_last() == digits(n / 16, 16));
        assert(d.last() == crate::memory_map::text::digit_char(n % 16));
        assert(d[0] == digits(n / 16, 16)[0]);
        assert(n == (n / 16) * 16 + n % 16) by {
            vstd::arithmetic::div_mod::lemma_fundamental_div_mod(n as int, 16);
        }
        assert(hex_number(d.drop_last()) == Some(n / 16));
        assert(hex_digit_value(d.last()) == Some(n % 16));
        assert(hex_number(d) == Some((n / 16) * 16 + n % 16));
    } else {
        assert(hex_number(d.drop_last()) == Some(0nat));
        assert(hex_digit_value(d.last()) == Some(n));
        lemma_digit_char_value(n);
        assert(d.drop_last() =~= Seq::<char>::empty());
        assert(without_underscores(d.drop_last()) =~= Seq::<char>::empty());
    }
}

/// Writing a number as `0x` and its hexadecimal digits and reading it back gives the number.
pub proof fn lemma_hex_str_roundtrip(n: u64)
    ensures
        hex_str_value(seq!['0', 'x'] + digits(n as nat, 16)) == Some(n),
{
    let d = digits(n as nat, 16);
    let s = seq!['0', 'x'] + d;
    lemma_hex_digits_value(n as nat);
    assert(s.subrange(2, s.len() as int) =~= d);
}

/// Underscores after the `0x` prefix do not change the number a string denotes.
pub proof fn lemma_hex_str_underscores(s: Seq<char>)
    ensures
        hex_str_value(seq!['0', 'x'] + s) == hex_str_value(seq!['0', 'x'] + without_underscores(s)),
{
    lemma_without_underscores_idempotent(s);
    let a = seq!['0', 'x'] + s;
    let b = seq!['0', 'x'] + without_underscores(s);
    assert(a.subrange(2, a.len() as int) =~= s);
    assert(b.subrange(2, b.len() as int) =~= without_underscores(s));
}

/// Removing underscores twice removes no more than removing them once.
pub proof fn lemma_without_underscores_idempotent(s: Seq<char>)
    ensures
        without_underscores(without_underscores(s)) == without_underscores(s),
    decreases s.len(),
{
    if s.len() > 0 {
        lemma_without_underscores_idempotent(s.drop_last());
        let w = without_underscores(s.drop_last());
        if s.last() != '_' {
            assert(w.push(s.last()).drop_last() =~= w);
        }
    }
}

/// A leading `0` does not change the number that hexadecimal digits denote.
proof fn lemma_hex_leading_zero(s: Seq<char>)
    ensures
        hex_number(seq!['0'] + s) == hex_number(s),
    decreases s.len(),
{
    let t = seq!['0'] + s;
    lemma_digit_char_value(0);
    assert(crate::memory_map::text::digit_char(0) == '0');
    assert(hex_digit_value('0') == Some(0nat));
    if s.len() == 0 {
        assert(t.drop_last() =~= Seq::<char>::empty());
        assert(t.last() == '0');
        assert(hex_number(t.drop_last()) == Some(0nat));
        assert(hex_number(s) == Some(0nat));
        assert(hex_number(t) == Some(0nat * 16 + 0));
    } else {
        lemma_hex_leading_zero(s.drop_last());
        assert(t.drop_last() =~= seq!['0'] + s.drop_last());
        assert(t.last() == s.last());
        assert(hex_number(t) == match (hex_number(s.drop_last()), hex_digit_value(s.last())) {
            (Some(a), Some(d)) => Some(a * 16 + d),
            _ => None,
        });
    }
}

/// Leading zeros do not change the number that hexadecimal digits denote, and add no `_`.
proof fn lemma_hex_leading_zeros(z: nat, s: Seq<char>)
    requires
        without_underscores(s) == s,
    ensures
        hex_number(Seq::new(z, |i: int| '0') + s) == hex_number(s),
        without_underscores(Seq::new(z, |i: int| '0') + s) == Seq::new(z, |i: int| '0') + s,
    decreases z,
{
    if z > 0 {
        let zs = Seq::new(z, |i: int| '0');
        let rest = Seq::new((z - 1) as nat, |i: int| '0');
        lemma_hex_leading_zeros((z - 1) as nat, s);
        assert(zs + s =~= seq!['0'] + (rest + s));
        lemma_hex_leading_zero(rest + s);
        lemma_no_underscore_prefix(rest + s);
    } else {
        assert(Seq::new(0, |i: int| '0') + s =~= s);
    }
}

/// A `0` before a string without `_` leaves a string without `_`.
proof fn lemma_no_underscore_prefix(s: Seq<char>)
    requires
        without_underscores(s) == s,
    ensures
        without_underscores(seq!['0'] + s) == seq!['0'] + s,
    decreases s.len(),
{
    let t = seq!['0'] + s;
    if s.len() == 0 {
        assert(t.drop_last() =~= Seq::<char>::empty());
        assert(t.last() == '0');
        assert(without_underscores(t.drop_last()) =~= Seq::<char>::empty());
        assert(without_underscores(t) == without_underscores(t.drop_last()).push('0'));
        assert(without_underscores(t) =~= t);
    } else {
        let p = s.drop_last();
        assert(s.last() != '_') by {
            if s.last() == '_' {
                lemma_without_underscores_len(p);
                assert(without_underscores(s).len() < s.len());
            }
        }
        assert(without_underscores(p) == p) by {
            assert(without_underscores(s) == without_underscores(p).push(s.last()));
            assert(without_underscores(p) =~= without_underscores(s).drop_last());
        }
        lemma_no_underscore_prefix(p);
        assert(t.drop_last() =~= seq!['0'] + p);
        assert(t.last() == s.last());
        assert(without_underscores(t) == without_underscores(t.drop_last()).push(t.last()));
        assert((seq!['0'] + p).push(s.last()) =~= t);
    }
}

proof fn lemma_without_underscores_len(s: Seq<char>)
    ensures
        without_underscores(s).len() <= s.len(),
    decreases s.len(),
{
    if s.len() > 0 {
        lemma_without_underscores_len(s.drop_last());
    }
}

/// The labels of enumeration keys name the keys: when every key is below two a label is `0b`
/// and the key's single binary digit; otherwise a label is a `0x` number that the library's
/// hexadecimal notation reads back as the key, with one hexadecimal digit while every key is
/// below sixteen and at least `width` digits from sixteen on.
pub proof fn lemma_enum_key_labels(key: u64, max: u64, width: nat)
    requires
        key <= max,
    ensures
        max < 2 ==> enum_key_text(key, max, width) == seq![
            '0',
            'b',
            if key == 0 {
                '0'
            } else {
                '1'
            },
        ],
        2 <= max ==> hex_str_value(enum_key_text(key, max, width)) == Some(key),
        2 <= max < 16 ==> enum_key_text(key, max, width).len() == 3,
        16 <= max ==> enum_key_text(key, max, width).len() >= width + 2,
{
    let t = enum_key_text(key, max, width);
    let d = digits(key as nat, 16);
    lemma_hex_digits_value(key as nat);
    if max < 2 {
        assert(digits(key as nat, 2) == seq![crate::memory_map::text::digit_char(key as nat)]);
        assert(t =~= seq!['0', 'b', if key == 0 { '0' } else { '1' }]);
    } else if max < 16 {
        lemma_hex_str_roundtrip(key);
        assert(d == seq![crate::memory_map::text::digit_char(key as nat)]);
    } else {
        let padded = pad_zeros(d, width);
        assert(t == seq!['0', 'x'] + padded);
        assert(t.subrange(2, t.len() as int) =~= padded);
        if d.len() >= width {
            lemma_hex_str_roundtrip(key);
        } else {
            let z = (width - d.len()) as nat;
            lemma_hex_leading_zeros(z, d);
            assert(padded[0] == '0');
        }
    }
}

} // verus!
