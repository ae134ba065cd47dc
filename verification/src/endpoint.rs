//! Network addresses as plain values, and small tables keyed by them.

use vstd::prelude::*;

use crate::text::str_eq;

verus! {

/// A point in time or a span of time, in nanoseconds.
pub type Nanos = u128;

/// An IP address.
#[derive(Debug, Clone, Copy, PartialEq, Eq, Structural, Hash)]
pub enum Ip {
    V4(u32),
    V6(u128),
}

/// A socket address. `flowinfo` and `scope_id` are zero for an IPv4 address.
#[derive(Debug, Clone, Copy, PartialEq, Eq, Structural, Hash)]
pub struct Endpoint {
    pub ip: Ip,
    pub port: u16,
    pub flowinfo: u32,
    pub scope_id: u32,
}

impl Endpoint {
    /// The socket address of an IPv4 host, given by its four octets, and a port.
    pub fn v4(a: u8, b: u8, c: u8, d: u8, port: u16) -> (endpoint: Self)
        ensures
            endpoint == (Endpoint {
                ip: Ip::V4((a * 0x100_0000 + b * 0x1_0000 + c * 0x100 + d) as u32),
                port,
                flowinfo: 0,
                scope_id: 0,
            }),
    {
        let ip: u32 = a as u32 * 0x100_0000 + b as u32 * 0x1_0000 + c as u32 * 0x100 + d as u32;
        Endpoint { ip: Ip::V4(ip), port, flowinfo: 0, scope_id: 0 }
    }
}

/// Where `addr` first stands in a list.
pub(crate) fn position(list: &Vec<Endpoint>, addr: Endpoint) -> (at: Option<usize>)
    ensures
        match at {
            Some(i) => i < list@.len() && list@[i as int] == addr && !list@.take(
                i as int,
            ).contains(addr),
            None => !list@.contains(addr),
        },
{
    let mut i: usize = 0;
    while i < list.len()
        invariant
            0 <= i <= list@.len(),
            forall|j: int| 0 <= j < i ==> list@[j] != addr,
        decreases list@.len() - i,
    {
        if list[i] == addr {
            return Some(i);
        }
        i = i + 1;
    }
    None
}

/// A set of endpoints.
#[derive(Debug)]
pub struct EndpointSet {
    items: Vec<Endpoint>,
}

impl View for EndpointSet {
    type V = Set<Endpoint>;

    closed spec fn view(&self) -> Set<Endpoint> {
        self.items@.to_set()
    }
}

impl EndpointSet {
    /// Nothing occurs twice.
    #[verifier::type_invariant]
    spec fn distinct(self) -> bool {
        self.items@.no_duplicates()
    }

    pub fn new() -> (set: Self)
        ensures
            set@ == Set::<Endpoint>::empty(),
    {
        let set = EndpointSet { items: Vec::new() };
        assert(set@ =~= Set::<Endpoint>::empty());
        set
    }

    pub fn contains(&self, addr: Endpoint) -> (yes: bool)
        ensures
            yes == self@.contains(addr),
    {
        match position(&self.items, addr) {
            Some(i) => {
                assert(self.items@[i as int] == addr);
                true
            },
            None => false,
        }
    }

    /// Add `addr`; whether it was new.
    pub fn insert(&mut self, addr: Endpoint) -> (new: bool)
        ensures
            final(self)@ == old(self)@.insert(addr),
            new == !old(self)@.contains(addr),
    {
        if self.contains(addr) {
            assert(self@ =~= self@.insert(addr));
            return false;
        }
        proof {
            use_type_invariant(&*self);
        }
        let ghost before = self.items@;
        let mut items: Vec<Endpoint> = Vec::new();
        std::mem::swap(&mut items, &mut self.items);
        items.push(addr);
        proof {
            assert forall|a: Endpoint| items@.contains(a) == (before.contains(a) || a == addr) by {
                if before.contains(a) {
                    let i = choose|i: int| 0 <= i < before.len() && before[i] == a;
                    assert(items@[i] == a);
                }
                if a == addr {
                    assert(items@[before.len() as int] == a);
                }
            }
        }
        self.items = items;
        assert(self@ =~= old(self)@.insert(addr));
        true
    }

    pub fn remove(&mut self, addr: Endpoint)
        ensures
            final(self)@ == old(self)@.remove(addr),
    {
        proof {
            use_type_invariant(&*self);
        }
        let ghost before = self.items@;
        match position(&self.items, addr) {
            Some(i) => {
                let mut items: Vec<Endpoint> = Vec::new();
                std::mem::swap(&mut items, &mut self.items);
                items.remove(i);
                proof {
                    lemma_remove_distinct(before, i as int);
                }
                self.items = items;
                assert(self@ =~= old(self)@.remove(addr));
            },
            None => {
                assert(self@ =~= old(self)@.remove(addr));
            },
        }
    }
}

/// Taking one item out of a list without duplicates takes out that value alone.
proof fn lemma_remove_distinct<A>(s: Seq<A>, i: int)
    requires
        s.no_duplicates(),
        0 <= i < s.len(),
    ensures
        s.remove(i).no_duplicates(),
        forall|a: A| #[trigger] s.remove(i).contains(a) <==> s.contains(a) && a != s[i],
{
    let t = s.remove(i);
    assert forall|a: A| #[trigger] t.contains(a) <==> s.contains(a) && a != s[i] by {
        if t.contains(a) {
            let j = choose|j: int| 0 <= j < t.len() && t[j] == a;
            assert(s[if j < i { j } else { j + 1 }] == a);
        }
        if s.contains(a) && a != s[i] {
            let j = choose|j: int| 0 <= j < s.len() && s[j] == a;
            assert(t[if j < i { j } else { j - 1 }] == a);
        }
    }
}

/// Whether no key occurs twice.
pub open spec fn keys_distinct<K, V>(rows: Seq<(K, V)>) -> bool {
    forall|i: int, j: int|
        0 <= i < rows.len() && 0 <= j < rows.len() && i != j ==> (#[trigger] rows[i]).0 != (
        #[trigger] rows[j]).0
}

/// Whether some row has the key.
pub open spec fn has_key<K, V>(rows: Seq<(K, V)>, key: K) -> bool {
    exists|i: int| 0 <= i < rows.len() && (#[trigger] rows[i]).0 == key
}

/// The row that has the key.
pub open spec fn row_of<K, V>(rows: Seq<(K, V)>, key: K) -> int {
    choose|i: int| 0 <= i < rows.len() && (#[trigger] rows[i]).0 == key
}

/// The map that a list of rows says.
pub open spec fn rows_map<K, V>(rows: Seq<(K, V)>) -> Map<K, V> {
    Map::new(|key: K| has_key(rows, key), |key: K| rows[row_of(rows, key)].1)
}

/// Each row's value is the one that the map has under its key.
proof fn lemma_row<K, V>(rows: Seq<(K, V)>, i: int)
    requires
        keys_distinct(rows),
        0 <= i < rows.len(),
    ensures
        rows_map(rows).contains_key(rows[i].0),
        rows_map(rows)[rows[i].0] == rows[i].1,
{
    assert(has_key(rows, rows[i].0));
}

/// A row behind the others adds its key.
proof fn lemma_rows_push<K, V>(rows: Seq<(K, V)>, key: K, value: V)
    requires
        keys_distinct(rows),
        !has_key(rows, key),
    ensures
        keys_distinct(rows.push((key, value))),
        rows_map(rows.push((key, value))) == rows_map(rows).insert(key, value),
{
    let new = rows.push((key, value));
    assert(new[rows.len() as int] == (key, value));
    assert forall|k: K| has_key(new, k) == (has_key(rows, k) || k == key) by {
        if has_key(rows, k) {
            let i = row_of(rows, k);
            assert(new[i].0 == k);
        }
    }
    assert forall|k: K| has_key(new, k) implies #[trigger] rows_map(new)[k] == rows_map(
        rows,
    ).insert(key, value)[k] by {
        let i = row_of(new, k);
        lemma_row(new, i);
        if k != key {
            lemma_row(rows, i);
        }
    }
    assert(rows_map(new) =~= rows_map(rows).insert(key, value));
}

/// Another value in a row changes what the map has under its key.
proof fn lemma_rows_update<K, V>(rows: Seq<(K, V)>, i: int, value: V)
    requires
        keys_distinct(rows),
        0 <= i < rows.len(),
    ensures
        keys_distinct(rows.update(i, (rows[i].0, value))),
        rows_map(rows.update(i, (rows[i].0, value))) == rows_map(rows).insert(rows[i].0, value),
{
    let key = rows[i].0;
    let new = rows.update(i, (key, value));
    assert forall|k: K| has_key(new, k) == has_key(rows, k) by {
        if has_key(rows, k) {
            assert(new[row_of(rows, k)].0 == k);
        }
        if has_key(new, k) {
            assert(rows[row_of(new, k)].0 == k);
        }
    }
    assert(has_key(rows, key));
    assert forall|k: K| has_key(new, k) implies #[trigger] rows_map(new)[k] == rows_map(
        rows,
    ).insert(key, value)[k] by {
        let j = row_of(new, k);
        lemma_row(new, j);
        lemma_row(rows, j);
    }
    assert(rows_map(new) =~= rows_map(rows).insert(key, value));
}

/// Taking out a row takes its key out of the map.
proof fn lemma_rows_remove<K, V>(rows: Seq<(K, V)>, i: int)
    requires
        keys_distinct(rows),
        0 <= i < rows.len(),
    ensures
        keys_distinct(rows.remove(i)),
        rows_map(rows.remove(i)) == rows_map(rows).remove(rows[i].0),
{
    let key = rows[i].0;
    let new = rows.remove(i);
    assert forall|k: K| has_key(new, k) == (has_key(rows, k) && k != key) by {
        if has_key(new, k) {
            let j = row_of(new, k);
            assert(rows[if j < i { j } else { j + 1 }].0 == k);
        }
        if has_key(rows, k) && k != key {
            let j = row_of(rows, k);
            assert(new[if j < i { j } else { j - 1 }].0 == k);
        }
    }
    assert forall|k: K| has_key(new, k) implies #[trigger] rows_map(new)[k] == rows_map(
        rows,
    ).remove(key)[k] by {
        let j = row_of(new, k);
        lemma_row(new, j);
        lemma_row(rows, if j < i { j } else { j + 1 });
    }
    assert(rows_map(new) =~= rows_map(rows).remove(key));
}

/// A map from endpoints to points in time.
#[derive(Debug)]
pub struct EndpointTimes {
    rows: Vec<(Endpoint, Nanos)>,
}

impl View for EndpointTimes {
    type V = Map<Endpoint, Nanos>;

    closed spec fn view(&self) -> Map<Endpoint, Nanos> {
        rows_map(self.rows@)
    }
}

impl EndpointTimes {
    /// No endpoint occurs twice.
    #[verifier::type_invariant]
    spec fn distinct(self) -> bool {
        keys_distinct(self.rows@)
    }

    pub fn new() -> (times: Self)
        ensures
            times@ == Map::<Endpoint, Nanos>::empty(),
    {
        let times = EndpointTimes { rows: Vec::new() };
        assert(times@ =~= Map::<Endpoint, Nanos>::empty());
        times
    }

    /// Which row has the endpoint.
    fn row(&self, addr: Endpoint) -> (at: Option<usize>)
        ensures
            match at {
                Some(i) => i < self.rows@.len() && self.rows@[i as int].0 == addr,
                None => !has_key(self.rows@, addr),
            },
    {
        let mut i: usize = 0;
        while i < self.rows.len()
            invariant
                0 <= i <= self.rows@.len(),
                forall|j: int| 0 <= j < i ==> (#[trigger] self.rows@[j]).0 != addr,
            decreases self.rows@.len() - i,
        {
            if self.rows[i].0 == addr {
                return Some(i);
            }
            i = i + 1;
        }
        None
    }

    pub fn get(&self, addr: Endpoint) -> (time: Option<Nanos>)
        ensures
            time == if self@.contains_key(addr) {
                Some(self@[addr])
            } else {
                None
            },
    {
        proof {
            use_type_invariant(self);
        }
        match self.row(addr) {
            Some(i) => {
                proof {
                    lemma_row(self.rows@, i as int);
                }
                Some(self.rows[i].1)
            },
            None => None,
        }
    }

    pub fn insert(&mut self, addr: Endpoint, time: Nanos)
        ensures
            final(self)@ == old(self)@.insert(addr, time),
    {
        proof {
            use_type_invariant(&*self);
        }
        let at = self.row(addr);
        let mut rows: Vec<(Endpoint, Nanos)> = Vec::new();
        std::mem::swap(&mut rows, &mut self.rows);
        match at {
            Some(i) => {
                proof {
                    lemma_rows_update(rows@, i as int, time);
                }
                rows.set(i, (addr, time));
            },
            None => {
                proof {
                    lemma_rows_push(rows@, addr, time);
                }
                rows.push((addr, time));
            },
        }
        self.rows = rows;
    }

    pub fn remove(&mut self, addr: Endpoint)
        ensures
            final(self)@ == old(self)@.remove(addr),
    {
        proof {
            use_type_invariant(&*self);
        }
        let at = self.row(addr);
        match at {
            Some(i) => {
                let mut rows: Vec<(Endpoint, Nanos)> = Vec::new();
                std::mem::swap(&mut rows, &mut self.rows);
                proof {
                    lemma_rows_remove(rows@, i as int);
                }
                rows.remove(i);
                self.rows = rows;
            },
            None => {
                assert(self@ =~= old(self)@.remove(addr));
            },
        }
    }
}

/// What rows with a text as their key say.
pub open spec fn named_rows<V>(rows: Seq<(String, V)>) -> Seq<(Seq<char>, V)> {
    rows.map_values(|row: (String, V)| (row.0@, row.1))
}

/// A map from names to endpoints.
#[derive(Debug)]
pub struct NamedEndpoints {
    rows: Vec<(String, Endpoint)>,
}

impl View for NamedEndpoints {
    type V = Map<Seq<char>, Endpoint>;

    closed spec fn view(&self) -> Map<Seq<char>, Endpoint> {
        rows_map(named_rows(self.rows@))
    }
}

impl NamedEndpoints {
    /// No name occurs twice.
    #[verifier::type_invariant]
    spec fn distinct(self) -> bool {
        keys_distinct(named_rows(self.rows@))
    }

    pub fn new() -> (names: Self)
        ensures
            names@ == Map::<Seq<char>, Endpoint>::empty(),
    {
        let names = NamedEndpoints { rows: Vec::new() };
        assert(names@ =~= Map::<Seq<char>, Endpoint>::empty());
        names
    }

    /// Which row has the name.
    fn row(&self, name: &str) -> (at: Option<usize>)
        ensures
            match at {
                Some(i) => i < self.rows@.len() && named_rows(self.rows@)[i as int].0 == name@,
                None => !has_key(named_rows(self.rows@), name@),
            },
    {
        let ghost rows = named_rows(self.rows@);
        let mut i: usize = 0;
        while i < self.rows.len()
            invariant
                rows == named_rows(self.rows@),
                0 <= i <= self.rows@.len(),
                forall|j: int| 0 <= j < i ==> (#[trigger] rows[j]).0 != name@,
            decreases self.rows@.len() - i,
        {
            if str_eq(self.rows[i].0.as_str(), name) {
                return Some(i);
            }
            i = i + 1;
        }
        None
    }

    pub fn get(&self, name: &str) -> (addr: Option<Endpoint>)
        ensures
            addr == if self@.contains_key(name@) {
                Some(self@[name@])
            } else {
                None
            },
    {
        proof {
            use_type_invariant(self);
        }
        match self.row(name) {
            Some(i) => {
                proof {
                    lemma_row(named_rows(self.rows@), i as int);
                }
                Some(self.rows[i].1)
            },
            None => None,
        }
    }

    pub fn insert(&mut self, name: String, addr: Endpoint)
        ensures
            final(self)@ == old(self)@.insert(name@, addr),
    {
        proof {
            use_type_invariant(&*self);
        }
        let at = self.row(name.as_str());
        let ghost before = named_rows(self.rows@);
        let ghost key = name@;
        let mut rows: Vec<(String, Endpoint)> = Vec::new();
        std::mem::swap(&mut rows, &mut self.rows);
        match at {
            Some(i) => {
                proof {
                    lemma_rows_update(before, i as int, addr);
                }
                rows.set(i, (name, addr));
                assert(named_rows(rows@) =~= before.update(i as int, (key, addr)));
            },
            None => {
                proof {
                    lemma_rows_push(before, key, addr);
                }
                rows.push((name, addr));
                assert(named_rows(rows@) =~= before.push((key, addr)));
            },
        }
        self.rows = rows;
    }
}

} // verus!
