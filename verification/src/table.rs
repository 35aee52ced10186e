//! The admin-managed table of direct proxy rules.
//!
//! The table keeps its entries sorted by path prefix, one entry per prefix.
//! `add_proxy` is an upsert (last write wins), `remove_proxy` is an
//! idempotent delete, and `list_proxies` returns one page of the sorted
//! entries. The mathematical model is a sorted association sequence, and the
//! three operations are specified against the functional `spec_insert`,
//! `spec_remove` and a subrange of the entry sequence.

use vstd::prelude::*;

use crate::dto::{Page, Proxy};
use crate::text::{
    is_prefix_of, lemma_lex_asymmetry, lemma_lex_transitive, lemma_lex_trichotomy, lex_lt,
};

verus! {

/// One modelled entry: the rule's path prefix and its target URL.
pub type Entry = (Seq<char>, Seq<char>);

/// The value stored under key `k`, scanning from the front.
pub open spec fn spec_get(s: Seq<Entry>, k: Seq<char>) -> Option<Seq<char>>
    decreases s.len(),
{
    if s.len() == 0 {
        None
    } else if s[0].0 == k {
        Some(s[0].1)
    } else {
        spec_get(s.skip(1), k)
    }
}

/// Insertion into a sorted association sequence: replaces the entry with
/// key `k` if one exists, else places `(k, v)` before the first larger key.
pub open spec fn spec_insert(s: Seq<Entry>, k: Seq<char>, v: Seq<char>) -> Seq<Entry>
    decreases s.len(),
{
    if s.len() == 0 {
        seq![(k, v)]
    } else if lex_lt(s[0].0, k) {
        seq![s[0]] + spec_insert(s.skip(1), k, v)
    } else if s[0].0 == k {
        seq![(k, v)] + s.skip(1)
    } else {
        seq![(k, v)] + s
    }
}

/// Removal from an association sequence: drops the first entry with key
/// `k`, and leaves the sequence as it is when no entry has that key.
pub open spec fn spec_remove(s: Seq<Entry>, k: Seq<char>) -> Seq<Entry>
    decreases s.len(),
{
    if s.len() == 0 {
        s
    } else if s[0].0 == k {
        s.skip(1)
    } else {
        seq![s[0]] + spec_remove(s.skip(1), k)
    }
}

/// How many entries carry key `k`.
pub open spec fn key_count(s: Seq<Entry>, k: Seq<char>) -> nat
    decreases s.len(),
{
    if s.len() == 0 {
        0
    } else if s[0].0 == k {
        1 + key_count(s.skip(1), k)
    } else {
        key_count(s.skip(1), k)
    }
}

/// The first entry whose key is a prefix of `path`, scanning in order.
pub open spec fn spec_first_match(s: Seq<Entry>, path: Seq<char>) -> Option<Entry>
    decreases s.len(),
{
    if s.len() == 0 {
        None
    } else if is_prefix_of(s[0].0, path) {
        Some(s[0])
    } else {
        spec_first_match(s.skip(1), path)
    }
}

/// The keys appear in strictly increasing order (hence each key at most
/// once).
pub open spec fn sorted(s: Seq<Entry>) -> bool {
    forall|i: int, j: int| 0 <= i < j < s.len() ==> lex_lt(s[i].0, s[j].0)
}

/// A sequence is the entry at its head followed by its tail.
proof fn lemma_cons_skip(s: Seq<Entry>)
    requires
        s.len() > 0,
    ensures
        s == seq![s[0]] + s.skip(1),
{
    assert forall|j: int| 0 < j < s.len() implies (seq![s[0]] + s.skip(1))[j] == s[j] by {
        assert(s.skip(1)[j - 1] == s[j]);
    }
    assert(s =~= seq![s[0]] + s.skip(1));
}

/// Sortedness carries over to the tail.
proof fn lemma_sorted_skip(s: Seq<Entry>)
    requires
        sorted(s),
        s.len() > 0,
    ensures
        sorted(s.skip(1)),
{
    assert forall|i: int, j: int| 0 <= i < j < s.skip(1).len() implies lex_lt(
        #[trigger] s.skip(1)[i].0,
        #[trigger] s.skip(1)[j].0,
    ) by {
        assert(s.skip(1)[i] == s[i + 1]);
        assert(s.skip(1)[j] == s[j + 1]);
    }
}

/// A key below every key of `s` is stored nowhere in `s`.
proof fn lemma_small_key_absent(s: Seq<Entry>, k: Seq<char>)
    requires
        forall|i: int| 0 <= i < s.len() ==> lex_lt(k, #[trigger] s[i].0),
    ensures
        spec_get(s, k) is None,
        key_count(s, k) == 0,
    decreases s.len(),
{
    if s.len() > 0 {
        lemma_lex_asymmetry(k, s[0].0);
        assert forall|i: int| 0 <= i < s.skip(1).len() implies lex_lt(
            k,
            #[trigger] s.skip(1)[i].0,
        ) by {
            assert(s.skip(1)[i] == s[i + 1]);
        }
        lemma_small_key_absent(s.skip(1), k);
    }
}

/// What `spec_get` returns after an insertion: the inserted value under the
/// inserted key, and the old answer under every other key.
pub proof fn lemma_insert_get(s: Seq<Entry>, k: Seq<char>, v: Seq<char>, q: Seq<char>)
    ensures
        spec_get(spec_insert(s, k, v), k) == Some(v),
        q != k ==> spec_get(spec_insert(s, k, v), q) == spec_get(s, q),
    decreases s.len(),
{
    let ins = spec_insert(s, k, v);
    if s.len() == 0 {
        assert(ins == seq![(k, v)]);
        assert(ins[0] == (k, v));
        assert(ins.skip(1) =~= Seq::<Entry>::empty());
        if q != k {
            assert(spec_get(ins, q) == spec_get(ins.skip(1), q));
        }
    } else if lex_lt(s[0].0, k) {
        lemma_lex_asymmetry(s[0].0, k);
        lemma_insert_get(s.skip(1), k, v, q);
        assert(ins == seq![s[0]] + spec_insert(s.skip(1), k, v));
        assert(ins[0] == s[0]);
        assert(ins.skip(1) =~= spec_insert(s.skip(1), k, v));
        assert(ins[0].0 != k);
        assert(spec_get(ins, k) == spec_get(spec_insert(s.skip(1), k, v), k));
        if q != k {
            if q == s[0].0 {
                assert(spec_get(ins, q) == Some(ins[0].1));
                assert(spec_get(s, q) == Some(s[0].1));
            } else {
                assert(spec_get(ins, q) == spec_get(spec_insert(s.skip(1), k, v), q));
                assert(spec_get(s, q) == spec_get(s.skip(1), q));
            }
        }
    } else if s[0].0 == k {
        assert(ins == seq![(k, v)] + s.skip(1));
        assert(ins[0] == (k, v));
        assert(ins.skip(1) =~= s.skip(1));
        if q != k {
            assert(spec_get(ins, q) == spec_get(s.skip(1), q));
            assert(spec_get(s, q) == spec_get(s.skip(1), q));
        }
    } else {
        assert(ins == seq![(k, v)] + s);
        assert(ins[0] == (k, v));
        assert(ins.skip(1) =~= s);
        if q != k {
            assert(spec_get(ins, q) == spec_get(s, q));
        }
    }
}

/// Inserting keeps the keys strictly sorted, and introduces no key besides
/// the inserted one.
pub proof fn lemma_insert_sorted(s: Seq<Entry>, k: Seq<char>, v: Seq<char>)
    requires
        sorted(s),
    ensures
        sorted(spec_insert(s, k, v)),
        forall|i: int|
            0 <= i < spec_insert(s, k, v).len() ==> (#[trigger] spec_insert(s, k, v)[i].0 == k
                || exists|j: int| 0 <= j < s.len() && s[j].0 == #[trigger] spec_insert(s, k, v)[i].0),
    decreases s.len(),
{
    let ins = spec_insert(s, k, v);
    if s.len() == 0 {
    } else if lex_lt(s[0].0, k) {
        lemma_sorted_skip(s);
        lemma_insert_sorted(s.skip(1), k, v);
        let tail_ins = spec_insert(s.skip(1), k, v);
        assert(ins == seq![s[0]] + tail_ins);
        assert(ins[0] == s[0]);
        assert forall|i: int| 0 < i < ins.len() implies lex_lt(ins[0].0, #[trigger] ins[i].0) by {
            assert(ins[i] == tail_ins[i - 1]);
            if tail_ins[i - 1].0 == k {
            } else {
                let j = choose|j: int| 0 <= j < s.skip(1).len() && s.skip(1)[j].0 == tail_ins[i
                    - 1].0;
                assert(s.skip(1)[j] == s[j + 1]);
            }
        }
        assert forall|i: int, j: int| 0 <= i < j < ins.len() implies lex_lt(
            #[trigger] ins[i].0,
            #[trigger] ins[j].0,
        ) by {
            if i > 0 {
                assert(ins[i] == tail_ins[i - 1]);
                assert(ins[j] == tail_ins[j - 1]);
            }
        }
        assert forall|i: int|
            0 <= i < ins.len() implies (#[trigger] ins[i].0 == k || exists|j: int|
            0 <= j < s.len() && s[j].0 == ins[i].0) by {
            if i == 0 {
                assert(s[0].0 == ins[0].0);
            } else {
                assert(ins[i] == tail_ins[i - 1]);
                if tail_ins[i - 1].0 != k {
                    let j = choose|j: int| 0 <= j < s.skip(1).len() && s.skip(1)[j].0 == tail_ins[i
                        - 1].0;
                    assert(s.skip(1)[j] == s[j + 1]);
                    assert(s[j + 1].0 == ins[i].0);
                }
            }
        }
    } else if s[0].0 == k {
        lemma_sorted_skip(s);
        assert(ins == seq![(k, v)] + s.skip(1));
        assert forall|i: int, j: int| 0 <= i < j < ins.len() implies lex_lt(
            #[trigger] ins[i].0,
            #[trigger] ins[j].0,
        ) by {
            assert(ins[j] == s.skip(1)[j - 1]);
            assert(s.skip(1)[j - 1] == s[j]);
            if i > 0 {
                assert(ins[i] == s[i]);
            }
        }
        assert forall|i: int|
            0 <= i < ins.len() implies (#[trigger] ins[i].0 == k || exists|j: int|
            0 <= j < s.len() && s[j].0 == ins[i].0) by {
            if i > 0 {
                assert(ins[i] == s.skip(1)[i - 1]);
                assert(s.skip(1)[i - 1] == s[i]);
                assert(s[i].0 == ins[i].0);
            }
        }
    } else {
        lemma_lex_trichotomy(s[0].0, k);
        assert(lex_lt(k, s[0].0));
        assert(ins == seq![(k, v)] + s);
        assert forall|i: int, j: int| 0 <= i < j < ins.len() implies lex_lt(
            #[trigger] ins[i].0,
            #[trigger] ins[j].0,
        ) by {
            assert(ins[j] == s[j - 1]);
            if i > 0 {
                assert(ins[i] == s[i - 1]);
            } else {
                if j - 1 > 0 {
                    assert(lex_lt(s[0].0, s[j - 1].0));
                    lemma_lex_transitive(k, s[0].0, s[j - 1].0);
                }
            }
        }
        assert forall|i: int|
            0 <= i < ins.len() implies (#[trigger] ins[i].0 == k || exists|j: int|
            0 <= j < s.len() && s[j].0 == ins[i].0) by {
            if i > 0 {
                assert(ins[i] == s[i - 1]);
                assert(s[i - 1].0 == ins[i].0);
            }
        }
    }
}

/// A key that `spec_get` does not find occurs nowhere, and removal of such
/// a key leaves the sequence as it is.
pub proof fn lemma_remove_absent(s: Seq<Entry>, k: Seq<char>)
    requires
        spec_get(s, k) is None,
    ensures
        spec_remove(s, k) == s,
        key_count(s, k) == 0,
    decreases s.len(),
{
    if s.len() > 0 {
        lemma_remove_absent(s.skip(1), k);
        lemma_cons_skip(s);
    }
}

/// In a sorted sequence every key occurs at most once.
pub proof fn lemma_sorted_key_count(s: Seq<Entry>, k: Seq<char>)
    requires
        sorted(s),
    ensures
        key_count(s, k) <= 1,
        spec_get(s, k) is Some ==> key_count(s, k) == 1,
        spec_get(s, k) is None ==> key_count(s, k) == 0,
    decreases s.len(),
{
    if s.len() > 0 {
        lemma_sorted_skip(s);
        lemma_sorted_key_count(s.skip(1), k);
        if s[0].0 == k {
            assert forall|i: int| 0 <= i < s.skip(1).len() implies lex_lt(
                k,
                #[trigger] s.skip(1)[i].0,
            ) by {
                assert(s.skip(1)[i] == s[i + 1]);
            }
            lemma_small_key_absent(s.skip(1), k);
        }
    }
}

/// What `spec_get` returns after a removal: nothing under the removed key,
/// and the old answer under every other key. Needs sortedness so that the
/// removed entry was the only one with its key.
pub proof fn lemma_remove_get(s: Seq<Entry>, k: Seq<char>, q: Seq<char>)
    requires
        sorted(s),
    ensures
        spec_get(spec_remove(s, k), k) is None,
        q != k ==> spec_get(spec_remove(s, k), q) == spec_get(s, q),
        sorted(spec_remove(s, k)),
    decreases s.len(),
{
    let rem = spec_remove(s, k);
    if s.len() == 0 {
    } else if s[0].0 == k {
        lemma_sorted_skip(s);
        assert forall|i: int| 0 <= i < s.skip(1).len() implies lex_lt(
            k,
            #[trigger] s.skip(1)[i].0,
        ) by {
            assert(s.skip(1)[i] == s[i + 1]);
        }
        lemma_small_key_absent(s.skip(1), k);
    } else {
        lemma_sorted_skip(s);
        lemma_remove_get(s.skip(1), k, q);
        let tail_rem = spec_remove(s.skip(1), k);
        assert(rem == seq![s[0]] + tail_rem);
        assert(rem[0] == s[0]);
        assert(rem.skip(1) =~= tail_rem);
        assert forall|i: int, j: int| 0 <= i < j < rem.len() implies lex_lt(
            #[trigger] rem[i].0,
            #[trigger] rem[j].0,
        ) by {
            if i > 0 {
                lemma_remove_keys(s.skip(1), k, i - 1);
                lemma_remove_keys(s.skip(1), k, j - 1);
                assert(rem[i] == tail_rem[i - 1]);
                assert(rem[j] == tail_rem[j - 1]);
            } else {
                lemma_remove_keys(s.skip(1), k, j - 1);
                assert(rem[j] == tail_rem[j - 1]);
            }
        }
    }
}

/// Every entry that removal leaves in place stems from the original
/// sequence, in order.
proof fn lemma_remove_keys(s: Seq<Entry>, k: Seq<char>, i: int)
    requires
        sorted(s),
        0 <= i < spec_remove(s, k).len(),
    ensures
        exists|j: int| i <= j < s.len() && s[j] == spec_remove(s, k)[i],
    decreases s.len(),
{
    let rem = spec_remove(s, k);
    if s.len() == 0 {
    } else if s[0].0 == k {
        assert(rem == s.skip(1));
        assert(s.skip(1)[i] == s[i + 1]);
    } else {
        assert(rem == seq![s[0]] + spec_remove(s.skip(1), k));
        if i > 0 {
            lemma_sorted_skip(s);
            lemma_remove_keys(s.skip(1), k, i - 1);
            let j = choose|j: int|
                i - 1 <= j < s.skip(1).len() && s.skip(1)[j] == spec_remove(s.skip(1), k)[i - 1];
            assert(s.skip(1)[j] == s[j + 1]);
            assert(rem[i] == spec_remove(s.skip(1), k)[i - 1]);
            assert(s[j + 1] == rem[i]);
        } else {
            assert(rem[0] == s[0]);
        }
    }
}

/// The admin-managed table of direct proxy rules, sorted by path prefix.
pub struct ProxyTable {
    rules: Vec<Proxy>,
}

impl View for ProxyTable {
    type V = Seq<Entry>;

    closed spec fn view(&self) -> Seq<Entry> {
        self.rules@.map_values(|p: Proxy| p@)
    }
}

impl ProxyTable {
    /// The table's entries are sorted by key.
    pub open spec fn wf(&self) -> bool {
        sorted(self@)
    }

    /// An empty table.
    pub fn new() -> (r: ProxyTable)
        ensures
            r.wf(),
            r@ == Seq::<Entry>::empty(),
    {
        let r = ProxyTable { rules: Vec::new() };
        proof {
            assert(r@ =~= Seq::<Entry>::empty());
        }
        r
    }

    /// How many rules the table holds.
    pub fn len(&self) -> (r: usize)
        ensures
            r == self@.len(),
    {
        self.rules.len()
    }

    /// The path prefix of the rule at index `i`.
    fn path_at(&self, i: usize) -> (r: &String)
        requires
            i < self@.len(),
        ensures
            r@ == self@[i as int].0,
    {
        &self.rules[i].path
    }

    /// The first rule whose prefix starts `path`: its prefix length and
    /// its target URL. Entries are scanned in key-sorted order and the
    /// first match is authoritative.
    pub fn first_match(&self, path: &str) -> (r: Option<(usize, String)>)
        ensures
            match spec_first_match(self@, path@) {
                Some(e) => r matches Some((l, url)) && l == e.0.len() && url@ == e.1
                    && is_prefix_of(e.0, path@),
                None => r is None,
            },
    {
        let ghost s = self@;
        let len = self.rules.len();
        let mut i: usize = 0;
        proof {
            assert(s.skip(0) =~= s);
        }
        loop
            invariant
                0 <= i <= len,
                len == self@.len(),
                s == self@,
                spec_first_match(s, path@) == spec_first_match(s.skip(i as int), path@),
            ensures
                0 <= i <= len,
                spec_first_match(s, path@) == spec_first_match(s.skip(i as int), path@),
                i < len ==> is_prefix_of(s[i as int].0, path@),
            decreases len - i,
        {
            if i >= len {
                break ;
            }
            if crate::text::str_starts_with(path, self.path_at(i).as_str()) {
                break ;
            }
            proof {
                assert(s.skip(i as int)[0] == s[i as int]);
                assert(spec_first_match(s.skip(i as int), path@) == spec_first_match(
                    s.skip(i as int).skip(1),
                    path@,
                ));
                assert forall|j: int| 0 <= j < s.len() - i - 1 implies #[trigger] s.skip(
                    i as int,
                ).skip(1)[j] == s.skip(i + 1)[j] by {
                    assert(s.skip(i as int).skip(1)[j] == s.skip(i as int)[j + 1]);
                    assert(s.skip(i as int)[j + 1] == s[i + 1 + j]);
                    assert(s.skip(i + 1)[j] == s[i + 1 + j]);
                }
                assert(s.skip(i as int).skip(1) =~= s.skip(i + 1));
            }
            i = i + 1;
        }
        if i < len {
            proof {
                assert(s.skip(i as int)[0] == s[i as int]);
                assert(spec_first_match(s.skip(i as int), path@) == Some(s[i as int]));
            }
            let prefix_len = self.path_at(i).as_str().unicode_len();
            let url = String::from_str(self.rules[i].url.as_str());
            proof {
                assert(s[i as int] == self.rules@[i as int]@);
            }
            Some((prefix_len, url))
        } else {
            proof {
                assert(s.skip(i as int) =~= Seq::<Entry>::empty());
            }
            None
        }
    }
}

/// Upserts the rule `proxy.path → proxy.url`: the last write for a prefix
/// wins, and the table stays sorted. Returns the rule's path, as the admin
/// API reports it back.
pub fn add_proxy(table: &mut ProxyTable, proxy: &Proxy) -> (r: String)
    requires
        old(table).wf(),
    ensures
        final(table).wf(),
        final(table)@ == spec_insert(old(table)@, proxy.path@, proxy.url@),
        r@ == proxy.path@,
{
    let ghost s = table@;
    let ghost k = proxy.path@;
    let ghost v = proxy.url@;
    let len = table.rules.len();
    let mut i: usize = 0;
    proof {
        assert(s.skip(0) =~= s);
        assert(s.take(0) + spec_insert(s, k, v) =~= spec_insert(s, k, v));
    }
    loop
        invariant
            0 <= i <= len,
            len == table.rules.len(),
            *table == *old(table),
            s == table@,
            k == proxy.path@,
            v == proxy.url@,
            table.wf(),
            forall|j: int| 0 <= j < i ==> lex_lt(s[j].0, k),
            spec_insert(s, k, v) == s.take(i as int) + spec_insert(s.skip(i as int), k, v),
        ensures
            0 <= i <= len,
            *table == *old(table),
            spec_insert(s, k, v) == s.take(i as int) + spec_insert(s.skip(i as int), k, v),
            i < len ==> !lex_lt(s[i as int].0, k),
        decreases len - i,
    {
        if i >= len {
            break ;
        }
        let keep_going = crate::text::str_lt(table.path_at(i).as_str(), proxy.path.as_str());
        if !keep_going {
            proof {
                assert(s[i as int] == table.rules@[i as int]@);
            }
            break ;
        }
        proof {
            let tail = s.skip(i as int);
            assert(s[i as int] == table.rules@[i as int]@);
            assert(tail[0] == s[i as int]);
            assert(lex_lt(tail[0].0, k));
            assert(spec_insert(tail, k, v) == seq![tail[0]] + spec_insert(tail.skip(1), k, v));
            assert(spec_insert(s.skip(i as int), k, v) == seq![s[i as int]] + spec_insert(
                s.skip(i as int).skip(1),
                k,
                v,
            ));
            assert forall|j: int| 0 <= j < s.len() - i - 1 implies #[trigger] s.skip(
                i as int,
            ).skip(1)[j] == s.skip(i + 1)[j] by {
                assert(s.skip(i as int).skip(1)[j] == s.skip(i as int)[j + 1]);
                assert(s.skip(i as int)[j + 1] == s[i + 1 + j]);
                assert(s.skip(i + 1)[j] == s[i + 1 + j]);
            }
            assert(s.skip(i as int).skip(1) =~= s.skip(i + 1));
            assert forall|j: int| 0 <= j < i + 1 implies #[trigger] (s.take(i as int)
                + seq![s[i as int]])[j] == s.take(i + 1)[j] by {
                if j < i {
                    assert(s.take(i as int)[j] == s[j]);
                }
                assert(s.take(i + 1)[j] == s[j]);
            }
            assert(s.take(i as int) + seq![s[i as int]] =~= s.take(i + 1));
            assert(s.take(i + 1) + spec_insert(s.skip(i + 1), k, v) =~= (s.take(i as int)
                + seq![s[i as int]]) + spec_insert(s.skip(i as int).skip(1), k, v));
            assert((s.take(i as int) + seq![s[i as int]]) + spec_insert(
                s.skip(i as int).skip(1),
                k,
                v,
            ) =~= s.take(i as int) + (seq![s[i as int]] + spec_insert(
                s.skip(i as int).skip(1),
                k,
                v,
            )));
        }
        i = i + 1;
    }
    let fresh = Proxy {
        path: String::from_str(proxy.path.as_str()),
        url: String::from_str(proxy.url.as_str()),
    };
    if i < len && crate::text::str_eq(table.path_at(i).as_str(), proxy.path.as_str()) {
        proof {
            assert(s[i as int] == table.rules@[i as int]@);
            assert(s.skip(i as int)[0] == s[i as int]);
            assert(s[i as int].0 == k);
            assert(spec_insert(s.skip(i as int), k, v) == seq![(k, v)] + s.skip(i as int).skip(1));
        }
        table.rules.remove(i);
        table.rules.insert(i, fresh);
        proof {
            assert forall|j: int| 0 <= j < s.len() implies #[trigger] table@[j] == (s.take(i as int)
                + spec_insert(s.skip(i as int), k, v))[j] by {
                assert(table@[j] == table.rules@[j]@);
                if j < i {
                    assert(table.rules@[j] == old(table).rules@[j]);
                    assert(s.take(i as int)[j] == s[j]);
                } else if j > i {
                    assert(table.rules@[j] == old(table).rules@[j]);
                    assert(s.skip(i as int).skip(1)[j - i - 1] == s.skip(i as int)[j - i]);
                    assert(s.skip(i as int)[j - i] == s[j]);
                }
            }
            assert(table@ =~= s.take(i as int) + spec_insert(s.skip(i as int), k, v));
            lemma_insert_sorted(s, k, v);
        }
    } else {
        proof {
            if i < len {
                assert(s[i as int] == table.rules@[i as int]@);
                assert(s.skip(i as int)[0] == s[i as int]);
                assert(s[i as int].0 != k);
                assert(spec_insert(s.skip(i as int), k, v) == seq![(k, v)] + s.skip(i as int));
            } else {
                assert(s.skip(i as int) =~= Seq::<Entry>::empty());
                assert(spec_insert(s.skip(i as int), k, v) == seq![(k, v)]);
            }
        }
        table.rules.insert(i, fresh);
        proof {
            assert forall|j: int| 0 <= j < s.len() + 1 implies #[trigger] table@[j] == (s.take(
                i as int,
            ) + spec_insert(s.skip(i as int), k, v))[j] by {
                assert(table@[j] == table.rules@[j]@);
                if j < i {
                    assert(table.rules@[j] == old(table).rules@[j]);
                    assert(s.take(i as int)[j] == s[j]);
                } else if j > i {
                    assert(table.rules@[j] == old(table).rules@[j - 1]);
                    if i < s.len() {
                        assert(s.skip(i as int)[j - i - 1] == s[j - 1]);
                    }
                }
            }
            assert(table@ =~= s.take(i as int) + spec_insert(s.skip(i as int), k, v));
            lemma_insert_sorted(s, k, v);
        }
    }
    String::from_str(proxy.path.as_str())
}

/// Deletes the rule under `name`, if any. A prefix that is not in the table
/// is not an error: the table is left as it is. Returns the prefix, as the
/// admin API reports it back.
pub fn remove_proxy(table: &mut ProxyTable, name: &str) -> (r: String)
    requires
        old(table).wf(),
    ensures
        final(table).wf(),
        final(table)@ == spec_remove(old(table)@, name@),
        r@ == name@,
{
    let ghost s = table@;
    let ghost k = name@;
    let len = table.rules.len();
    let mut i: usize = 0;
    proof {
        assert(s.skip(0) =~= s);
        assert(s.take(0) + spec_remove(s, k) =~= spec_remove(s, k));
    }
    loop
        invariant
            0 <= i <= len,
            len == table.rules.len(),
            *table == *old(table),
            s == table@,
            k == name@,
            table.wf(),
            forall|j: int| 0 <= j < i ==> s[j].0 != k,
            spec_remove(s, k) == s.take(i as int) + spec_remove(s.skip(i as int), k),
        ensures
            0 <= i <= len,
            *table == *old(table),
            spec_remove(s, k) == s.take(i as int) + spec_remove(s.skip(i as int), k),
            i < len ==> s[i as int].0 == k,
        decreases len - i,
    {
        if i >= len {
            break ;
        }
        let found = crate::text::str_eq(table.path_at(i).as_str(), name);
        if found {
            break ;
        }
        proof {
            let tail = s.skip(i as int);
            assert(tail[0] == s[i as int]);
            assert(tail[0].0 != k);
            assert(spec_remove(tail, k) == seq![tail[0]] + spec_remove(tail.skip(1), k));
            assert forall|j: int| 0 <= j < s.len() - i - 1 implies #[trigger] s.skip(
                i as int,
            ).skip(1)[j] == s.skip(i + 1)[j] by {
                assert(s.skip(i as int).skip(1)[j] == s.skip(i as int)[j + 1]);
                assert(s.skip(i as int)[j + 1] == s[i + 1 + j]);
                assert(s.skip(i + 1)[j] == s[i + 1 + j]);
            }
            assert(s.skip(i as int).skip(1) =~= s.skip(i + 1));
            assert forall|j: int| 0 <= j < i + 1 implies #[trigger] (s.take(i as int)
                + seq![s[i as int]])[j] == s.take(i + 1)[j] by {
                if j < i {
                    assert(s.take(i as int)[j] == s[j]);
                }
                assert(s.take(i + 1)[j] == s[j]);
            }
            assert(s.take(i as int) + seq![s[i as int]] =~= s.take(i + 1));
            assert(s.take(i + 1) + spec_remove(s.skip(i + 1), k) =~= (s.take(i as int)
                + seq![s[i as int]]) + spec_remove(s.skip(i as int).skip(1), k));
            assert((s.take(i as int) + seq![s[i as int]]) + spec_remove(
                s.skip(i as int).skip(1),
                k,
            ) =~= s.take(i as int) + (seq![s[i as int]] + spec_remove(
                s.skip(i as int).skip(1),
                k,
            )));
        }
        i = i + 1;
    }
    if i < len {
        proof {
            assert(s.skip(i as int)[0] == s[i as int]);
            assert(spec_remove(s.skip(i as int), k) == s.skip(i as int).skip(1));
            assert forall|j: int| 0 <= j < s.len() - i - 1 implies #[trigger] s.skip(
                i as int,
            ).skip(1)[j] == s.skip(i + 1)[j] by {
                assert(s.skip(i as int).skip(1)[j] == s.skip(i as int)[j + 1]);
                assert(s.skip(i as int)[j + 1] == s[i + 1 + j]);
                assert(s.skip(i + 1)[j] == s[i + 1 + j]);
            }
            assert(s.skip(i as int).skip(1) =~= s.skip(i + 1));
        }
        table.rules.remove(i);
        proof {
            assert forall|j: int| 0 <= j < s.len() - 1 implies #[trigger] table@[j] == (s.take(
                i as int,
            ) + s.skip(i + 1))[j] by {
                assert(table@[j] == table.rules@[j]@);
                if j < i {
                    assert(table.rules@[j] == old(table).rules@[j]);
                    assert(s.take(i as int)[j] == s[j]);
                } else {
                    assert(table.rules@[j] == old(table).rules@[j + 1]);
                    assert(s.skip(i + 1)[j - i] == s[j + 1]);
                }
            }
            assert(table@ =~= s.take(i as int) + s.skip(i + 1));
            lemma_remove_get(s, k, k);
        }
    } else {
        proof {
            assert(s.skip(i as int) =~= Seq::<Entry>::empty());
            assert(spec_remove(s.skip(i as int), k) =~= Seq::<Entry>::empty());
            assert(s.take(i as int) + spec_remove(s.skip(i as int), k) =~= s);
            lemma_remove_get(s, k, k);
        }
    }
    String::from_str(name)
}

/// Returns one page of the table, in key-sorted order: the entries at
/// sorted positions `[number*size, min(number*size + size, len))`. A page
/// past the end is empty, not an error.
pub fn list_proxies(table: &ProxyTable, page: &Page) -> (r: Vec<Proxy>)
    ensures
        ({
            let n = table@.len() as int;
            let wanted = (page.number as int) * (page.size as int);
            let start = if wanted <= n {
                wanted
            } else {
                n
            };
            let end = if start + (page.size as int) <= n {
                start + (page.size as int)
            } else {
                n
            };
            r@.map_values(|p: Proxy| p@) == table@.subrange(start, end)
        }),
{
    let len = table.rules.len();
    let start: usize = match page.number.checked_mul(page.size) {
        Some(x) => if x <= len {
            x
        } else {
            len
        },
        None => len,
    };
    let end: usize = if page.size <= len - start {
        start + page.size
    } else {
        len
    };
    let mut out: Vec<Proxy> = Vec::new();
    let mut idx: usize = start;
    while idx < end
        invariant
            start <= idx <= end,
            end <= len,
            len == table.rules.len(),
            out@.len() == idx - start,
            forall|j: int| 0 <= j < out@.len() ==> #[trigger] out@[j]@ == table@[start + j],
        decreases end - idx,
    {
        let entry = Proxy {
            path: String::from_str(table.rules[idx].path.as_str()),
            url: String::from_str(table.rules[idx].url.as_str()),
        };
        proof {
            assert(table@[idx as int] == table.rules@[idx as int]@);
        }
        out.push(entry);
        idx = idx + 1;
    }
    proof {
        assert(out@.map_values(|p: Proxy| p@) =~= table@.subrange(start as int, end as int));
    }
    out
}

/// The table that folding a list of seed rules yields, first rule first:
/// a later rule under the same prefix wins.
pub open spec fn spec_insert_all(acc: Seq<Entry>, rules: Seq<Entry>) -> Seq<Entry>
    decreases rules.len(),
{
    if rules.len() == 0 {
        acc
    } else {
        spec_insert_all(spec_insert(acc, rules[0].0, rules[0].1), rules.skip(1))
    }
}

/// Builds a table from the configured seed rules, inserting them in order.
pub fn build_table(rules: &Vec<Proxy>) -> (r: ProxyTable)
    ensures
        r.wf(),
        r@ == spec_insert_all(Seq::<Entry>::empty(), rules@.map_values(|p: Proxy| p@)),
{
    let ghost views = rules@.map_values(|p: Proxy| p@);
    let mut table = ProxyTable::new();
    let len = rules.len();
    let mut i: usize = 0;
    proof {
        assert(views.skip(0) =~= views);
    }
    while i < len
        invariant
            0 <= i <= len,
            len == rules@.len(),
            views == rules@.map_values(|p: Proxy| p@),
            table.wf(),
            spec_insert_all(Seq::<Entry>::empty(), views) == spec_insert_all(
                table@,
                views.skip(i as int),
            ),
        decreases len - i,
    {
        proof {
            let tail = views.skip(i as int);
            assert(tail[0] == views[i as int]);
            assert(views[i as int] == rules@[i as int]@);
            assert(spec_insert_all(table@, tail) == spec_insert_all(
                spec_insert(table@, tail[0].0, tail[0].1),
                tail.skip(1),
            ));
            assert forall|j: int| 0 <= j < views.len() - i - 1 implies #[trigger] views.skip(
                i as int,
            ).skip(1)[j] == views.skip(i + 1)[j] by {
                assert(views.skip(i as int).skip(1)[j] == views.skip(i as int)[j + 1]);
                assert(views.skip(i as int)[j + 1] == views[i + 1 + j]);
                assert(views.skip(i + 1)[j] == views[i + 1 + j]);
            }
            assert(views.skip(i as int).skip(1) =~= views.skip(i + 1));
        }
        let _ = add_proxy(&mut table, &rules[i]);
        i = i + 1;
    }
    proof {
        assert(views.skip(len as int) =~= Seq::<Entry>::empty());
    }
    table
}

/// Law: adding under a prefix twice keeps one entry for that prefix, and
/// the last write wins. After `add(p, u1)` then `add(p, u2)`, the table
/// holds exactly one entry whose key is `p`, and its target is `u2`.
pub proof fn lemma_add_add_last_wins(s: Seq<Entry>, p: Seq<char>, u1: Seq<char>, u2: Seq<char>)
    requires
        sorted(s),
    ensures
        key_count(spec_insert(spec_insert(s, p, u1), p, u2), p) == 1,
        spec_get(spec_insert(spec_insert(s, p, u1), p, u2), p) == Some(u2),
{
    let s1 = spec_insert(s, p, u1);
    let s2 = spec_insert(s1, p, u2);
    lemma_insert_sorted(s, p, u1);
    lemma_insert_sorted(s1, p, u2);
    lemma_insert_get(s1, p, u2, p);
    lemma_sorted_key_count(s2, p);
}

/// Law: removing a prefix that the table does not hold changes nothing:
/// the listing after the removal is the listing before it.
pub proof fn lemma_remove_absent_is_noop(s: Seq<Entry>, p: Seq<char>)
    requires
        spec_get(s, p) is None,
    ensures
        spec_remove(s, p) == s,
{
    lemma_remove_absent(s, p);
}

} // verus!
