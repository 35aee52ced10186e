//! The periodic self-announcement.
//!
//! Each cycle the node determines its own advertised address — a configured
//! domain, or the first global IPv6 address of a local interface — and
//! pushes its record to every configured directory peer, each peer
//! independently: one peer's failure neither blocks nor hides another
//! peer's delivery.

use vstd::prelude::*;

use crate::err::Error;
use crate::text::has_char;

verus! {

/// A hexadecimal digit as rendered in an address.
pub open spec fn is_hex_char(c: char) -> bool {
    ('0' <= c && c <= '9') || ('a' <= c && c <= 'f')
}

/// The text form of a link-local (`fe80::/10`) IPv6 address: its first
/// hextet has four digits, `fe8`..`feb` leading, followed by a colon.
pub open spec fn is_link_local(s: Seq<char>) -> bool {
    s.len() >= 5 && s[0] == 'f' && s[1] == 'e' && (s[2] == '8' || s[2] == '9' || s[2] == 'a'
        || s[2] == 'b') && is_hex_char(s[3]) && s[4] == ':'
}

/// A global IPv6 address in text form: an IPv6 address (it holds a colon)
/// that is neither link-local nor unspecified nor loopback.
pub open spec fn is_global_ipv6(s: Seq<char>) -> bool {
    has_char(s, ':') && !is_link_local(s) && s != "::"@ && s != "::1"@
}

/// Whether the rendered address `s` is a global IPv6 address.
pub fn check_global_ipv6(s: &str) -> (r: bool)
    ensures
        r == is_global_ipv6(s@),
{
    if !crate::text::str_has_char(s, ':') {
        return false;
    }
    if crate::text::str_eq(s, "::") || crate::text::str_eq(s, "::1") {
        return false;
    }
    let len = s.unicode_len();
    if len >= 5 {
        let c0 = s.get_char(0);
        let c1 = s.get_char(1);
        let c2 = s.get_char(2);
        let c3 = s.get_char(3);
        let c4 = s.get_char(4);
        let third = c2 == '8' || c2 == '9' || c2 == 'a' || c2 == 'b';
        let hex3 = ('0' <= c3 && c3 <= '9') || ('a' <= c3 && c3 <= 'f');
        if c0 == 'f' && c1 == 'e' && third && hex3 && c4 == ':' {
            return false;
        }
    }
    true
}

/// The first global IPv6 address of the list, scanning in order.
pub open spec fn spec_select_global(views: Seq<Seq<char>>) -> Option<Seq<char>>
    decreases views.len(),
{
    if views.len() == 0 {
        None
    } else if is_global_ipv6(views[0]) {
        Some(views[0])
    } else {
        spec_select_global(views.skip(1))
    }
}

/// Picks the first address of the list that is a global IPv6 address:
/// link-local, unspecified and loopback addresses are passed over, and a
/// list without any global address yields nothing.
pub fn select_global_ipv6(addrs: &Vec<String>) -> (r: Option<String>)
    ensures
        ({
            let views = addrs@.map_values(|a: String| a@);
            match spec_select_global(views) {
                Some(v) => r matches Some(x) && x@ == v,
                None => r is None,
            }
        }),
{
    let ghost views = addrs@.map_values(|a: String| a@);
    let len = addrs.len();
    let mut i: usize = 0;
    proof {
        assert(views.skip(0) =~= views);
    }
    loop
        invariant
            0 <= i <= len,
            len == addrs@.len(),
            views == addrs@.map_values(|a: String| a@),
            spec_select_global(views) == spec_select_global(views.skip(i as int)),
        ensures
            0 <= i <= len,
            spec_select_global(views) == spec_select_global(views.skip(i as int)),
            i < len ==> is_global_ipv6(views[i as int]),
        decreases len - i,
    {
        if i >= len {
            break ;
        }
        proof {
            assert(views[i as int] == addrs@[i as int]@);
        }
        if check_global_ipv6(addrs[i].as_str()) {
            break ;
        }
        proof {
            assert(views.skip(i as int)[0] == views[i as int]);
            assert(spec_select_global(views.skip(i as int)) == spec_select_global(
                views.skip(i as int).skip(1),
            ));
            assert forall|j: int| 0 <= j < views.len() - i - 1 implies #[trigger] views.skip(
                i as int,
            ).skip(1)[j] == views.skip(i + 1)[j] by {
                assert(views.skip(i as int).skip(1)[j] == views.skip(i as int)[j + 1]);
                assert(views.skip(i as int)[j + 1] == views[i + 1 + j]);
                assert(views.skip(i + 1)[j] == views[i + 1 + j]);
            }
            assert(views.skip(i as int).skip(1) =~= views.skip(i + 1));
        }
        i = i + 1;
    }
    if i < len {
        proof {
            assert(views.skip(i as int)[0] == views[i as int]);
            assert(spec_select_global(views.skip(i as int)) == Some(views[i as int]));
            assert(views[i as int] == addrs@[i as int]@);
        }
        Some(String::from_str(addrs[i].as_str()))
    } else {
        proof {
            assert(views.skip(i as int) =~= Seq::<Seq<char>>::empty());
        }
        None
    }
}

/// Relies on pnet's datalink::interfaces: the addresses of the local
/// network interfaces, rendered as text, in enumeration order. What the
/// machine reports varies, so nothing is promised of the list.
#[verifier::external_body]
fn interface_addrs() -> Vec<String> {
    let mut out = Vec::new();
    for interface in pnet::datalink::interfaces() {
        for ip in &interface.ips {
            out.push(ip.ip().to_string());
        }
    }
    out
}

/// Autodetects this node's global IPv6 address from the local interfaces.
/// Whatever the machine reports, a returned address is a global IPv6
/// address; when no interface carries one, the `NoAddressFound` condition
/// is reported as an error and the announcement cycle is skipped.
pub fn get_global_ipv6() -> (r: Result<String, Error>)
    ensures
        r matches Ok(s) ==> is_global_ipv6(s@),
        r matches Err(e) ==> e is Other,
{
    let addrs = interface_addrs();
    match select_global_ipv6(&addrs) {
        Some(s) => {
            proof {
                let views = addrs@.map_values(|a: String| a@);
                lemma_select_global_is_global(views);
            }
            Ok(s)
        },
        None => Err(Error::Other(String::from_str("no global ipv6 address"))),
    }
}

/// What `spec_select_global` picks is itself a global address.
proof fn lemma_select_global_is_global(views: Seq<Seq<char>>)
    ensures
        spec_select_global(views) matches Some(v) ==> is_global_ipv6(v),
    decreases views.len(),
{
    if views.len() > 0 && !is_global_ipv6(views[0]) {
        lemma_select_global_is_global(views.skip(1));
    }
}

/// The address this node announces: the configured domain when one is set,
/// else the autodetected global IPv6 address.
pub fn choose_announce_ip(domain_v: &Vec<String>) -> (r: Result<String, Error>)
    ensures
        domain_v@.len() > 0 ==> (r matches Ok(s) && s@ == domain_v@[0]@),
        domain_v@.len() == 0 ==> (r matches Ok(s) ==> is_global_ipv6(s@)),
        domain_v@.len() == 0 ==> (r matches Err(e) ==> e is Other),
{
    if domain_v.len() > 0 {
        Ok(String::from_str(domain_v[0].as_str()))
    } else {
        get_global_ipv6()
    }
}

/// The script that reads this node's own name, port and path from the
/// record store, in that order.
pub fn self_info_script() -> (r: Vec<String>)
    ensures
        r@.len() == 3,
        r@[0]@ == "$->$:output = root->name _"@,
        r@[1]@ == "$->$:output append $->$:output root->port"@,
        r@[2]@ == "$->$:output append $->$:output root->path"@,
{
    let mut r: Vec<String> = Vec::new();
    r.push(String::from_str("$->$:output = root->name _"));
    r.push(String::from_str("$->$:output append $->$:output root->port"));
    r.push(String::from_str("$->$:output append $->$:output root->path"));
    r
}

/// The script that reads the configured directory peers from the record
/// store.
pub fn peer_list_script() -> (r: Vec<String>)
    ensures
        r@.len() == 1,
        r@[0]@ == "$->$:output = root->moon_server _"@,
{
    let mut r: Vec<String> = Vec::new();
    r.push(String::from_str("$->$:output = root->moon_server _"));
    r
}

/// The upsert-by-name script sent to each directory peer: it replaces the
/// peer's record for `name` with this node's `ip`, `port` and `path`, and
/// creates one when none exists.
pub fn announce_script(name: &str, ip: &str, port: &str, path: &str) -> (r: Vec<String>)
    ensures
        r@.len() == 8,
        r@[0]@ == "$->$:server_exists inner root->web_server "@ + name@ + "<-name"@,
        r@[1]@ == "$->$:web_server if $->$:server_exists ?"@,
        r@[2]@ == "$->$:web_server->name = "@ + name@ + " _"@,
        r@[3]@ == "$->$:web_server->ip = "@ + ip@ + " _"@,
        r@[4]@ == "$->$:web_server->port = "@ + port@ + " _"@,
        r@[5]@ == "$->$:web_server->path = "@ + path@ + " _"@,
        r@[6]@ == "$->$:web_server left $->$:web_server $->$:server_exists"@,
        r@[7]@ == "root->web_server append root->web_server $->$:web_server"@,
{
    let mut r: Vec<String> = Vec::new();
    let mut line0 = String::from_str("$->$:server_exists inner root->web_server ");
    line0.append(name);
    line0.append("<-name");
    r.push(line0);
    r.push(String::from_str("$->$:web_server if $->$:server_exists ?"));
    let mut line2 = String::from_str("$->$:web_server->name = ");
    line2.append(name);
    line2.append(" _");
    r.push(line2);
    let mut line3 = String::from_str("$->$:web_server->ip = ");
    line3.append(ip);
    line3.append(" _");
    r.push(line3);
    let mut line4 = String::from_str("$->$:web_server->port = ");
    line4.append(port);
    line4.append(" _");
    r.push(line4);
    let mut line5 = String::from_str("$->$:web_server->path = ");
    line5.append(path);
    line5.append(" _");
    r.push(line5);
    r.push(String::from_str("$->$:web_server left $->$:web_server $->$:server_exists"));
    r.push(String::from_str("root->web_server append root->web_server $->$:web_server"));
    r
}

/// How many peers of the cycle took the announcement.
pub open spec fn count_delivered(s: Seq<bool>) -> nat
    decreases s.len(),
{
    if s.len() == 0 {
        0
    } else {
        (if s[0] {
            1nat
        } else {
            0nat
        }) + count_delivered(s.skip(1))
    }
}

/// The outcome of one announcement cycle over all configured peers.
pub struct AnnounceSummary {
    pub delivered: usize,
    pub failed: usize,
}

/// Tallies one announcement cycle from the per-peer outcomes: how many
/// peers took the announcement and how many failed. Every peer is counted;
/// no failure hides another peer's result.
pub fn announce_summary(results: &Vec<bool>) -> (r: AnnounceSummary)
    ensures
        r.delivered == count_delivered(results@),
        r.delivered + r.failed == results@.len(),
{
    let ghost s = results@;
    let len = results.len();
    let mut delivered: usize = 0;
    let mut i: usize = 0;
    proof {
        assert(s.take(0) =~= Seq::<bool>::empty());
    }
    while i < len
        invariant
            0 <= i <= len,
            len == results@.len(),
            s == results@,
            delivered <= i,
            delivered == count_delivered(s.take(i as int)),
        decreases len - i,
    {
        proof {
            lemma_count_delivered_push(s, i as int);
        }
        if results[i] {
            delivered = delivered + 1;
        }
        i = i + 1;
    }
    proof {
        assert(s.take(len as int) =~= s);
    }
    AnnounceSummary { delivered, failed: len - delivered }
}

/// Counting one more outcome adds that outcome alone.
proof fn lemma_count_delivered_push(s: Seq<bool>, i: int)
    requires
        0 <= i < s.len(),
    ensures
        count_delivered(s.take(i + 1)) == count_delivered(s.take(i)) + (if s[i] {
            1nat
        } else {
            0nat
        }),
{
    lemma_peer_independence(s.take(i + 1), i);
    assert(s.take(i + 1).take(i) =~= s.take(i));
    assert(s.take(i + 1).skip(i + 1) =~= Seq::<bool>::empty());
    assert(s.take(i + 1)[i] == s[i]);
}

/// Law: the peers of a cycle are independent. A peer's delivery counts
/// from its own outcome alone: the tally splits around any peer into what
/// the peers before it did, its own outcome, and what the peers after it
/// did — so one peer's failure cannot hide another peer's delivery.
pub proof fn lemma_peer_independence(s: Seq<bool>, i: int)
    requires
        0 <= i < s.len(),
    ensures
        count_delivered(s) == count_delivered(s.take(i)) + (if s[i] {
            1nat
        } else {
            0nat
        }) + count_delivered(s.skip(i + 1)),
    decreases i,
{
    if i == 0 {
        assert(s.take(0) =~= Seq::<bool>::empty());
        assert(s.skip(1) =~= s.skip(1));
    } else {
        lemma_peer_independence(s.skip(1), i - 1);
        assert forall|j: int| 0 <= j < i - 1 implies #[trigger] s.skip(1).take(i - 1)[j] == s.take(
            i,
        )[j + 1] by {
            assert(s.skip(1).take(i - 1)[j] == s.skip(1)[j]);
            assert(s.skip(1)[j] == s[j + 1]);
            assert(s.take(i)[j + 1] == s[j + 1]);
        }
        assert(s.skip(1).take(i - 1) =~= s.take(i).skip(1));
        assert(s.take(i)[0] == s[0]);
        assert(count_delivered(s.take(i)) == (if s[0] {
            1nat
        } else {
            0nat
        }) + count_delivered(s.take(i).skip(1)));
        assert(s.skip(1)[i - 1] == s[i]);
        assert forall|j: int| 0 <= j < s.len() - i - 1 implies #[trigger] s.skip(1).skip(i)[j]
            == s.skip(i + 1)[j] by {
            assert(s.skip(1).skip(i)[j] == s.skip(1)[j + i]);
            assert(s.skip(1)[j + i] == s[j + i + 1]);
            assert(s.skip(i + 1)[j] == s[j + i + 1]);
        }
        assert(s.skip(1).skip(i) =~= s.skip(i + 1));
    }
}

} // verus!
