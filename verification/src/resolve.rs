//! Resolution of named services.
//!
//! A service's location is a record `{name, ip, port, path}`. Resolution is
//! cache-aside: the local record cache is consulted first, and on a miss (or
//! after a stale forward) the configured directory peers are asked in order,
//! the first well-formed answer winning. A fresh answer replaces the cached
//! record for that name, so the cache holds at most one record per name.

use vstd::prelude::*;

use crate::err::Error;
use crate::text::has_char;

verus! {

/// The location of one named service.
pub struct ServiceRecord {
    pub name: String,
    pub ip: String,
    pub port: String,
    pub path: String,
}

/// The mathematical image of a [`ServiceRecord`].
pub ghost struct RecordView {
    pub name: Seq<char>,
    pub ip: Seq<char>,
    pub port: Seq<char>,
    pub path: Seq<char>,
}

impl View for ServiceRecord {
    type V = RecordView;

    open spec fn view(&self) -> RecordView {
        RecordView { name: self.name@, ip: self.ip@, port: self.port@, path: self.path@ }
    }
}

/// The base URL composed from a record: `http://` then the host — an IP
/// holding a colon is bracketed — then the port unless it is `80`, then the
/// path.
pub open spec fn uri_of(ip: Seq<char>, port: Seq<char>, path: Seq<char>) -> Seq<char> {
    let host = if has_char(ip, ':') {
        "["@ + ip + "]"@
    } else {
        ip
    };
    let port_part = if port == "80"@ {
        Seq::<char>::empty()
    } else {
        ":"@ + port
    };
    "http://"@ + host + port_part + path
}

/// Composes the base URL for a resolved record, bracketing an IPv6 host
/// and leaving out the default port `80`.
pub fn parse_uri(ip: &str, port: &str, path: &str) -> (r: String)
    ensures
        r@ == uri_of(ip@, port@, path@),
{
    let mut r = String::from_str("http://");
    if crate::text::str_has_char(ip, ':') {
        r.append("[");
        r.append(ip);
        r.append("]");
    } else {
        r.append(ip);
    }
    if !crate::text::str_eq(port, "80") {
        r.append(":");
        r.append(port);
    }
    r.append(path);
    proof {
        assert(r@ =~= uri_of(ip@, port@, path@));
    }
    r
}

/// Validates the three fields extracted from a peer's reply. All three
/// must be present; the first missing one names the error.
pub fn parse_info(ip: Option<String>, port: Option<String>, path: Option<String>) -> (r: Result<
    (String, String, String),
    Error,
>)
    ensures
        ip is None ==> (r matches Err(Error::Other(m)) && m@ == "no ip"@),
        ip is Some && port is None ==> (r matches Err(Error::Other(m)) && m@ == "no port"@),
        ip is Some && port is Some && path is None ==> (r matches Err(Error::Other(m)) && m@
            == "no path"@),
        ip is Some && port is Some && path is Some ==> r is Ok,
        r matches Ok(t) ==> ip == Some(t.0) && port == Some(t.1) && path == Some(t.2),
{
    match ip {
        None => Err(Error::Other(String::from_str("no ip"))),
        Some(i) => match port {
            None => Err(Error::Other(String::from_str("no port"))),
            Some(o) => match path {
                None => Err(Error::Other(String::from_str("no path"))),
                Some(a) => Ok((i, o, a)),
            },
        },
    }
}

/// The record stored under `name`, scanning from the front.
pub open spec fn spec_cache_get(s: Seq<RecordView>, name: Seq<char>) -> Option<RecordView>
    decreases s.len(),
{
    if s.len() == 0 {
        None
    } else if s[0].name == name {
        Some(s[0])
    } else {
        spec_cache_get(s.skip(1), name)
    }
}

/// Functional upsert: replaces the record whose name matches, or appends
/// the new record at the end when no name matches.
pub open spec fn spec_cache_upsert(s: Seq<RecordView>, r: RecordView) -> Seq<RecordView>
    decreases s.len(),
{
    if s.len() == 0 {
        seq![r]
    } else if s[0].name == r.name {
        seq![r] + s.skip(1)
    } else {
        seq![s[0]] + spec_cache_upsert(s.skip(1), r)
    }
}

/// The names are pairwise distinct: at most one record per name.
pub open spec fn distinct_names(s: Seq<RecordView>) -> bool {
    forall|i: int, j: int| 0 <= i < j < s.len() ==> s[i].name != s[j].name
}

/// The local write-back cache of resolved service records.
pub struct RecordCache {
    records: Vec<ServiceRecord>,
}

impl View for RecordCache {
    type V = Seq<RecordView>;

    closed spec fn view(&self) -> Seq<RecordView> {
        self.records@.map_values(|r: ServiceRecord| r@)
    }
}

impl RecordCache {
    /// At most one record per name.
    pub open spec fn wf(&self) -> bool {
        distinct_names(self@)
    }

    /// An empty cache.
    pub fn new() -> (r: RecordCache)
        ensures
            r.wf(),
            r@ == Seq::<RecordView>::empty(),
    {
        let r = RecordCache { records: Vec::new() };
        proof {
            assert(r@ =~= Seq::<RecordView>::empty());
        }
        r
    }

    /// The name of the record at index `i`.
    fn name_at(&self, i: usize) -> (r: &String)
        requires
            i < self@.len(),
        ensures
            r@ == self@[i as int].name,
    {
        &self.records[i].name
    }

    /// Looks up the record stored under `name`.
    pub fn get(&self, name: &str) -> (r: Option<&ServiceRecord>)
        ensures
            match r {
                Some(rec) => spec_cache_get(self@, name@) == Some(rec@),
                None => spec_cache_get(self@, name@) is None,
            },
    {
        let ghost s = self@;
        let len = self.records.len();
        let mut i: usize = 0;
        proof {
            assert(s.skip(0) =~= s);
        }
        loop
            invariant
                0 <= i <= len,
                len == self@.len(),
                s == self@,
                spec_cache_get(s, name@) == spec_cache_get(s.skip(i as int), name@),
            ensures
                0 <= i <= len,
                spec_cache_get(s, name@) == spec_cache_get(s.skip(i as int), name@),
                i < len ==> s[i as int].name == name@,
            decreases len - i,
        {
            if i >= len {
                break ;
            }
            let found = crate::text::str_eq(self.name_at(i).as_str(), name);
            if found {
                break ;
            }
            proof {
                let tail = s.skip(i as int);
                assert(tail[0] == s[i as int]);
                assert(spec_cache_get(tail, name@) == spec_cache_get(tail.skip(1), name@));
                assert forall|j: int| 0 <= j < s.len() - i - 1 implies #[trigger] s.skip(
                    i as int,
                ).skip(1)[j] == s.skip(i + 1)[j] by {
                    assert(s.skip(i as int).skip(1)[j] == s.skip(i as int)[j + 1]);
                    assert(s.skip(i as int)[j + 1] == s[i + 1 + j]);
                    assert(s.skip(i + 1)[j] == s[i + 1 + j]);
                }
                assert(s.skip(i as int).skip(1) =~= s.skip(i + 1));
            }
            i = i + 1;
        }
        if i < len {
            proof {
                assert(s.skip(i as int)[0] == s[i as int]);
                assert(spec_cache_get(s.skip(i as int), name@) == Some(s[i as int]));
            }
            Some(&self.records[i])
        } else {
            proof {
                assert(s.skip(i as int) =~= Seq::<RecordView>::empty());
            }
            None
        }
    }

    /// Stores `rec`, replacing any record that carried the same name: the
    /// cache keeps at most one record per name.
    pub fn upsert(&mut self, rec: ServiceRecord)
        requires
            old(self).wf(),
        ensures
            final(self).wf(),
            final(self)@ == spec_cache_upsert(old(self)@, rec@),
    {
        let ghost s = self@;
        let ghost rv = rec@;
        let len = self.records.len();
        let mut i: usize = 0;
        proof {
            assert(s.skip(0) =~= s);
            assert(s.take(0) + spec_cache_upsert(s, rv) =~= spec_cache_upsert(s, rv));
        }
        loop
            invariant
                0 <= i <= len,
                len == self@.len(),
                *self == *old(self),
                s == self@,
                rv == rec@,
                self.wf(),
                forall|j: int| 0 <= j < i ==> s[j].name != rv.name,
                spec_cache_upsert(s, rv) == s.take(i as int) + spec_cache_upsert(
                    s.skip(i as int),
                    rv,
                ),
            ensures
                0 <= i <= len,
                *self == *old(self),
                forall|j: int| 0 <= j < i ==> s[j].name != rv.name,
                spec_cache_upsert(s, rv) == s.take(i as int) + spec_cache_upsert(
                    s.skip(i as int),
                    rv,
                ),
                i < len ==> s[i as int].name == rv.name,
            decreases len - i,
        {
            if i >= len {
                break ;
            }
            let found = crate::text::str_eq(self.name_at(i).as_str(), rec.name.as_str());
            if found {
                break ;
            }
            proof {
                let tail = s.skip(i as int);
                assert(tail[0] == s[i as int]);
                assert(spec_cache_upsert(tail, rv) == seq![tail[0]] + spec_cache_upsert(
                    tail.skip(1),
                    rv,
                ));
                assert forall|j: int| 0 <= j < s.len() - i - 1 implies #[trigger] s.skip(
                    i as int,
                ).skip(1)[j] == s.skip(i + 1)[j] by {
                    assert(s.skip(i as int).skip(1)[j] == s.skip(i as int)[j + 1]);
                    assert(s.skip(i as int)[j + 1] == s[i + 1 + j]);
                    assert(s.skip(i + 1)[j] == s[i + 1 + j]);
                }
                assert(s.skip(i as int).skip(1) =~= s.skip(i + 1));
                assert forall|j: int| 0 <= j < i + 1 implies #[trigger] (s.take(i as int)
                    + seq![s[i as int]])[j] == s.take(i + 1)[j] by {
                    if j < i {
                        assert(s.take(i as int)[j] == s[j]);
                    }
                    assert(s.take(i + 1)[j] == s[j]);
                }
                assert(s.take(i as int) + seq![s[i as int]] =~= s.take(i + 1));
                assert(s.take(i + 1) + spec_cache_upsert(s.skip(i + 1), rv) =~= (s.take(i as int)
                    + seq![s[i as int]]) + spec_cache_upsert(s.skip(i as int).skip(1), rv));
                assert((s.take(i as int) + seq![s[i as int]]) + spec_cache_upsert(
                    s.skip(i as int).skip(1),
                    rv,
                ) =~= s.take(i as int) + (seq![s[i as int]] + spec_cache_upsert(
                    s.skip(i as int).skip(1),
                    rv,
                )));
            }
            i = i + 1;
        }
        if i < len {
            proof {
                assert(s.skip(i as int)[0] == s[i as int]);
                assert(spec_cache_upsert(s.skip(i as int), rv) == seq![rv] + s.skip(
                    i as int,
                ).skip(1));
                assert forall|j: int| 0 <= j < s.len() - i - 1 implies #[trigger] s.skip(
                    i as int,
                ).skip(1)[j] == s.skip(i + 1)[j] by {
                    assert(s.skip(i as int).skip(1)[j] == s.skip(i as int)[j + 1]);
                    assert(s.skip(i as int)[j + 1] == s[i + 1 + j]);
                    assert(s.skip(i + 1)[j] == s[i + 1 + j]);
                }
                assert(s.skip(i as int).skip(1) =~= s.skip(i + 1));
            }
            self.records.remove(i);
            self.records.insert(i, rec);
            proof {
                assert forall|j: int| 0 <= j < s.len() implies #[trigger] self@[j] == (s.take(
                    i as int,
                ) + (seq![rv] + s.skip(i + 1)))[j] by {
                    assert(self@[j] == self.records@[j]@);
                    if j < i {
                        assert(self.records@[j] == old(self).records@[j]);
                        assert(s.take(i as int)[j] == s[j]);
                    } else if j > i {
                        assert(self.records@[j] == old(self).records@[j]);
                        assert(s.skip(i + 1)[j - i - 1] == s[j]);
                    }
                }
                assert(self@ =~= s.take(i as int) + (seq![rv] + s.skip(i + 1)));
                lemma_cache_upsert_names(s, rv);
            }
        } else {
            self.records.push(rec);
            proof {
                assert(s.skip(i as int) =~= Seq::<RecordView>::empty());
                assert(spec_cache_upsert(s.skip(i as int), rv) == seq![rv]);
                assert forall|j: int| 0 <= j < s.len() + 1 implies #[trigger] self@[j] == (s.take(
                    i as int,
                ) + seq![rv])[j] by {
                    assert(self@[j] == self.records@[j]@);
                    if j < i {
                        assert(self.records@[j] == old(self).records@[j]);
                        assert(s.take(i as int)[j] == s[j]);
                    }
                }
                assert(self@ =~= s.take(i as int) + seq![rv]);
                lemma_cache_upsert_names(s, rv);
            }
        }
    }
}

/// After an upsert exactly the old names and the new record's name are
/// present, each name still at most once, and the new record is stored
/// under its name.
pub proof fn lemma_cache_upsert_names(s: Seq<RecordView>, r: RecordView)
    requires
        distinct_names(s),
    ensures
        distinct_names(spec_cache_upsert(s, r)),
        spec_cache_get(spec_cache_upsert(s, r), r.name) == Some(r),
        forall|n: Seq<char>|
            n != r.name ==> #[trigger] spec_cache_get(spec_cache_upsert(s, r), n)
                == spec_cache_get(s, n),
    decreases s.len(),
{
    let up = spec_cache_upsert(s, r);
    if s.len() == 0 {
        assert(up == seq![r]);
        assert(up[0] == r);
        assert(up.skip(1) =~= Seq::<RecordView>::empty());
        assert forall|n: Seq<char>|
            n != r.name implies #[trigger] spec_cache_get(up, n) == spec_cache_get(s, n) by {
            assert(spec_cache_get(up, n) == spec_cache_get(up.skip(1), n));
        }
    } else if s[0].name == r.name {
        assert(up == seq![r] + s.skip(1));
        assert(up[0] == r);
        assert(up.skip(1) =~= s.skip(1));
        assert forall|i: int, j: int| 0 <= i < j < up.len() implies up[i].name != up[j].name by {
            assert(up[j] == s.skip(1)[j - 1]);
            assert(s.skip(1)[j - 1] == s[j]);
            if i > 0 {
                assert(up[i] == s[i]);
            }
        }
        assert forall|n: Seq<char>|
            n != r.name implies #[trigger] spec_cache_get(up, n) == spec_cache_get(s, n) by {
            assert(spec_cache_get(up, n) == spec_cache_get(s.skip(1), n));
            assert(spec_cache_get(s, n) == spec_cache_get(s.skip(1), n));
        }
    } else {
        assert forall|i: int, j: int| 0 <= i < j < s.skip(1).len() implies s.skip(1)[i].name
            != s.skip(1)[j].name by {
            assert(s.skip(1)[i] == s[i + 1]);
            assert(s.skip(1)[j] == s[j + 1]);
        }
        lemma_cache_upsert_names(s.skip(1), r);
        let tail_up = spec_cache_upsert(s.skip(1), r);
        assert(up == seq![s[0]] + tail_up);
        assert(up[0] == s[0]);
        assert(up.skip(1) =~= tail_up);
        assert forall|i: int, j: int| 0 <= i < j < up.len() implies up[i].name != up[j].name by {
            if i > 0 {
                assert(up[i] == tail_up[i - 1]);
                assert(up[j] == tail_up[j - 1]);
            } else {
                assert(up[j] == tail_up[j - 1]);
                lemma_cache_upsert_member(s.skip(1), r, j - 1);
                if tail_up[j - 1].name != r.name {
                    let m = choose|m: int|
                        0 <= m < s.skip(1).len() && s.skip(1)[m] == tail_up[j - 1];
                    assert(s.skip(1)[m] == s[m + 1]);
                }
            }
        }
        assert forall|n: Seq<char>|
            n != r.name implies #[trigger] spec_cache_get(up, n) == spec_cache_get(s, n) by {
            if n == s[0].name {
                assert(spec_cache_get(up, n) == Some(up[0]));
                assert(spec_cache_get(s, n) == Some(s[0]));
            } else {
                assert(spec_cache_get(up, n) == spec_cache_get(tail_up, n));
                assert(spec_cache_get(s, n) == spec_cache_get(s.skip(1), n));
            }
        }
        assert(spec_cache_get(up, r.name) == spec_cache_get(tail_up, r.name));
    }
}

/// The candidate URL that the cache alone yields: the URL composed from
/// the cached record, or nothing on a miss. Resolution does not judge here
/// whether the candidate is stale; that is decided after a forward attempt.
pub fn resolve_from_cache(cache: &RecordCache, name: &str) -> (r: Option<String>)
    ensures
        match spec_cache_get(cache@, name@) {
            Some(rec) => r matches Some(u) && u@ == uri_of(rec.ip, rec.port, rec.path),
            None => r is None,
        },
{
    match cache.get(name) {
        Some(rec) => Some(parse_uri(rec.ip.as_str(), rec.port.as_str(), rec.path.as_str())),
        None => None,
    }
}

/// Where a peer lookup stands: still asking (with the index of the peer to
/// ask next), resolved to a URL, or failed because every peer was tried.
/// A failed lookup is the `NoRouteFound` outcome that the middleware turns
/// into a not-found response.
pub enum Lookup {
    Querying { next_peer: usize },
    Resolved { url: String },
    Failed,
}

/// Starts a peer lookup: peers are asked strictly in configured order,
/// beginning at the first; without any configured peer the lookup has
/// already failed.
pub fn lookup_start(peer_count: usize) -> (r: Lookup)
    ensures
        peer_count == 0 ==> r is Failed,
        peer_count > 0 ==> (r matches Lookup::Querying { next_peer } && next_peer == 0),
{
    if peer_count == 0 {
        Lookup::Failed
    } else {
        Lookup::Querying { next_peer: 0 }
    }
}

/// Feeds one peer's decoded answer into the lookup. A well-formed answer
/// (all three fields present) wins: the record replaces the cache entry for
/// `name` and the lookup resolves to its URL. A malformed or missing answer
/// leaves the cache as it is and moves on to the next peer, failing after
/// the last one.
pub fn lookup_step(
    st: Lookup,
    peer_count: usize,
    cache: &mut RecordCache,
    name: &str,
    ip: Option<String>,
    port: Option<String>,
    path: Option<String>,
) -> (r: Lookup)
    requires
        st matches Lookup::Querying { next_peer } && next_peer < peer_count,
        old(cache).wf(),
    ensures
        final(cache).wf(),
        (ip is Some && port is Some && path is Some) ==> ({
            let rec = RecordView { name: name@, ip: ip->0@, port: port->0@, path: path->0@ };
            &&& (r matches Lookup::Resolved { url } && url@ == uri_of(rec.ip, rec.port, rec.path))
            &&& final(cache)@ == spec_cache_upsert(old(cache)@, rec)
        }),
        !(ip is Some && port is Some && path is Some) ==> ({
            &&& final(cache)@ == old(cache)@
            &&& st->next_peer + 1 < peer_count ==> (r matches Lookup::Querying { next_peer }
                && next_peer == st->next_peer + 1)
            &&& st->next_peer + 1 >= peer_count ==> r is Failed
        }),
{
    let idx: usize = match st {
        Lookup::Querying { next_peer } => next_peer,
        _ => 0,
    };
    match parse_info(ip, port, path) {
        Ok((i, o, a)) => {
            let url = parse_uri(i.as_str(), o.as_str(), a.as_str());
            cache.upsert(
                ServiceRecord { name: String::from_str(name), ip: i, port: o, path: a },
            );
            Lookup::Resolved { url }
        },
        Err(_) => {
            if idx + 1 < peer_count {
                Lookup::Querying { next_peer: idx + 1 }
            } else {
                Lookup::Failed
            }
        },
    }
}

/// The lookup-by-name script sent to a directory peer: it selects the
/// record stored under `name` and dumps its `ip`, `port` and `path`.
pub fn lookup_script(name: &str) -> (r: Vec<String>)
    ensures
        r@.len() == 5,
        r@[0]@ == "$->$:web_server inner root->web_server "@ + name@ + "<-name"@,
        r@[1]@ == "$->$:web_server->$:ip = $->$:web_server->ip _"@,
        r@[2]@ == "$->$:web_server->$:port = $->$:web_server->port _"@,
        r@[3]@ == "$->$:web_server->$:path = $->$:web_server->path _"@,
        r@[4]@ == "$->$:output dump $->$:web_server $"@,
{
    let mut r: Vec<String> = Vec::new();
    let mut line0 = String::from_str("$->$:web_server inner root->web_server ");
    line0.append(name);
    line0.append("<-name");
    r.push(line0);
    r.push(String::from_str("$->$:web_server->$:ip = $->$:web_server->ip _"));
    r.push(String::from_str("$->$:web_server->$:port = $->$:web_server->port _"));
    r.push(String::from_str("$->$:web_server->$:path = $->$:web_server->path _"));
    r.push(String::from_str("$->$:output dump $->$:web_server $"));
    r
}

/// What the decoder reads out of a peer's reply body: the first record's
/// `ip`, `port` and `path` fields, each absent when the body does not hold
/// it.
pub uninterp spec fn peer_record_of(body: Seq<char>) -> (
    Option<Seq<char>>,
    Option<Seq<char>>,
    Option<Seq<char>>,
);

/// The view of an optional string.
pub open spec fn opt_view(o: Option<String>) -> Option<Seq<char>> {
    match o {
        Some(s) => Some(s@),
        None => None,
    }
}

/// Relies on json::parse: reads a directory peer's reply and picks the
/// first record's `ip`, `port` and `path` fields; the result is a function
/// of the body text alone.
#[verifier::external_body]
fn decode_peer_record(body: &str) -> (r: (Option<String>, Option<String>, Option<String>))
    ensures
        opt_view(r.0) == peer_record_of(body@).0,
        opt_view(r.1) == peer_record_of(body@).1,
        opt_view(r.2) == peer_record_of(body@).2,
{
    match json::parse(body) {
        Ok(v) => {
            let rec = &v[0];
            let ip = rec["ip"][0].as_str().map(|s| s.to_string());
            let port = rec["port"][0].as_str().map(|s| s.to_string());
            let path = rec["path"][0].as_str().map(|s| s.to_string());
            (ip, port, path)
        },
        Err(_) => (None, None, None),
    }
}

/// Feeds one peer's raw reply body into the lookup: the body is decoded
/// and handed to [`lookup_step`]. This is the call the request loop makes
/// for each peer it has asked.
pub fn lookup_step_body(
    st: Lookup,
    peer_count: usize,
    cache: &mut RecordCache,
    name: &str,
    body: &str,
) -> (r: Lookup)
    requires
        st matches Lookup::Querying { next_peer } && next_peer < peer_count,
        old(cache).wf(),
    ensures
        final(cache).wf(),
        ({
            let (ip, port, path) = peer_record_of(body@);
            &&& (ip is Some && port is Some && path is Some) ==> ({
                let rec = RecordView {
                    name: name@,
                    ip: ip->0,
                    port: port->0,
                    path: path->0,
                };
                &&& (r matches Lookup::Resolved { url } && url@ == uri_of(
                    rec.ip,
                    rec.port,
                    rec.path,
                ))
                &&& final(cache)@ == spec_cache_upsert(old(cache)@, rec)
            })
            &&& !(ip is Some && port is Some && path is Some) ==> ({
                &&& final(cache)@ == old(cache)@
                &&& st->next_peer + 1 < peer_count ==> (r matches Lookup::Querying { next_peer }
                    && next_peer == st->next_peer + 1)
                &&& st->next_peer + 1 >= peer_count ==> r is Failed
            })
        }),
{
    let (ip, port, path) = decode_peer_record(body);
    lookup_step(st, peer_count, cache, name, ip, port, path)
}

/// Every record that an upsert leaves in the cache is the inserted record
/// or stems from the old cache.
proof fn lemma_cache_upsert_member(s: Seq<RecordView>, r: RecordView, i: int)
    requires
        0 <= i < spec_cache_upsert(s, r).len(),
    ensures
        spec_cache_upsert(s, r)[i] == r || exists|j: int|
            0 <= j < s.len() && s[j] == spec_cache_upsert(s, r)[i],
    decreases s.len(),
{
    let up = spec_cache_upsert(s, r);
    if s.len() == 0 {
        assert(up == seq![r]);
        assert(up[0] == r);
    } else if s[0].name == r.name {
        assert(up == seq![r] + s.skip(1));
        if i > 0 {
            assert(up[i] == s.skip(1)[i - 1]);
            assert(s.skip(1)[i - 1] == s[i]);
        } else {
            assert(up[0] == r);
        }
    } else {
        assert(up == seq![s[0]] + spec_cache_upsert(s.skip(1), r));
        if i > 0 {
            lemma_cache_upsert_member(s.skip(1), r, i - 1);
            assert(up[i] == spec_cache_upsert(s.skip(1), r)[i - 1]);
            if spec_cache_upsert(s.skip(1), r)[i - 1] != r {
                let j = choose|j: int|
                    0 <= j < s.skip(1).len() && s.skip(1)[j] == spec_cache_upsert(s.skip(1), r)[i
                        - 1];
                assert(s.skip(1)[j] == s[j + 1]);
            }
        } else {
            assert(up[0] == s[0]);
        }
    }
}

} // verus!
