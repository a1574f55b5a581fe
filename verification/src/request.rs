//! Request dispatch: the supported methods, parsing of a form-encoded body
//! with last-value-wins on duplicate keys, and the classification of what
//! the transport layer returned.
use vstd::prelude::*;

use crate::text::{split_char, split_on, upper_seq, ascii_upper, dec_rep, push_dec_u16,
    chars_to_string};

verus! {

/// What the dispatcher decides to send: a GET, a POST with a form body, or
/// a POST with an empty body.
pub enum RequestPlan {
    Get,
    PostForm(Vec<(String, String)>),
    PostEmpty,
}

/// Why a request produced no body text.
#[derive(Debug)]
pub enum RequestFailure {
    UnsupportedMethod(String),
    HttpStatusError(u16),
    BodyDecodeError,
    ConnectionError,
    TransportError(String),
}

/// What the transport layer came back with: a status code with the body
/// text (or none, when the body did not decode as text), a connect-level
/// failure, or any other transport failure with its message.
pub enum TransportOutcome {
    Response(u16, Option<String>),
    ConnectFailure,
    OtherFailure(String),
}

/// Split a pair on its first separator: the part before it and everything
/// after it. Without a separator the whole input is the first part and the
/// second is empty.
pub open spec fn split_first(s: Seq<char>, c: char) -> (Seq<char>, Seq<char>)
    decreases s.len(),
{
    if s.len() == 0 {
        (Seq::<char>::empty(), Seq::<char>::empty())
    } else if s[0] == c {
        (Seq::<char>::empty(), s.drop_first())
    } else {
        let r = split_first(s.drop_first(), c);
        (seq![s[0]] + r.0, r.1)
    }
}

proof fn lemma_split_first_no_sep(s: Seq<char>, c: char)
    requires
        forall|i: int| 0 <= i < s.len() ==> s[i] != c,
    ensures
        split_first(s, c).0 =~= s,
        split_first(s, c).1 =~= Seq::<char>::empty(),
    decreases s.len(),
{
    if s.len() != 0 {
        lemma_split_first_no_sep(s.drop_first(), c);
        assert(seq![s[0]] + s.drop_first() =~= s);
    }
}

proof fn lemma_split_first_at(s: Seq<char>, c: char, idx: int)
    requires
        0 <= idx < s.len(),
        s[idx] == c,
        forall|i: int| 0 <= i < idx ==> s[i] != c,
    ensures
        split_first(s, c).0 =~= s.subrange(0, idx),
        split_first(s, c).1 =~= s.subrange(idx + 1, s.len() as int),
    decreases idx,
{
    if idx == 0 {
        assert(s.drop_first() =~= s.subrange(1, s.len() as int));
    } else {
        lemma_split_first_at(s.drop_first(), c, idx - 1);
        assert(s.drop_first().subrange(0, idx - 1) =~= s.subrange(1, idx));
        assert(s.drop_first().subrange(idx, s.len() - 1) =~= s.subrange(idx + 1, s.len() as int));
        assert(seq![s[0]] + s.subrange(1, idx) =~= s.subrange(0, idx));
    }
}

/// The mapping that a list of `key=value` pairs builds up, later pairs
/// overriding earlier ones.
pub open spec fn pairs_map(ps: Seq<Seq<char>>) -> Map<Seq<char>, Seq<char>>
    decreases ps.len(),
{
    if ps.len() == 0 {
        Map::<Seq<char>, Seq<char>>::empty()
    } else {
        pairs_map(ps.drop_last()).insert(
            split_first(ps.last(), '=').0,
            split_first(ps.last(), '=').1,
        )
    }
}

/// The mapping a form-encoded body stands for: split on `&`, each pair
/// split on its first `=`, last value winning on duplicate keys.
pub open spec fn form_map(body: Seq<char>) -> Map<Seq<char>, Seq<char>> {
    pairs_map(split_char(body, '&'))
}

/// The mapping a list of owned key-value pairs stands for.
pub open spec fn vec_pairs_map(s: Seq<(String, String)>) -> Map<Seq<char>, Seq<char>>
    decreases s.len(),
{
    if s.len() == 0 {
        Map::<Seq<char>, Seq<char>>::empty()
    } else {
        vec_pairs_map(s.drop_last()).insert(s.last().0@, s.last().1@)
    }
}

/// No two pairs share a key.
pub open spec fn distinct_keys(s: Seq<(String, String)>) -> bool {
    forall|i: int, j: int| 0 <= i < j < s.len() ==> (#[trigger] s[i]).0@ != (#[trigger] s[j]).0@
}

proof fn lemma_vec_pairs_map_key(s: Seq<(String, String)>, k: Seq<char>)
    ensures
        vec_pairs_map(s).contains_key(k) <==> exists|i: int|
            0 <= i < s.len() && (#[trigger] s[i]).0@ == k,
    decreases s.len(),
{
    if s.len() > 0 {
        lemma_vec_pairs_map_key(s.drop_last(), k);
        if vec_pairs_map(s).contains_key(k) && s.last().0@ != k {
            let i = choose|i: int| 0 <= i < s.len() - 1 && (#[trigger] s.drop_last()[i]).0@ == k;
            assert(s[i].0@ == k);
        }
        if exists|i: int| 0 <= i < s.len() && (#[trigger] s[i]).0@ == k {
            let i = choose|i: int| 0 <= i < s.len() && (#[trigger] s[i]).0@ == k;
            if i < s.len() - 1 {
                assert(s.drop_last()[i].0@ == k);
            }
        }
    }
}

proof fn lemma_vec_pairs_map_update(s: Seq<(String, String)>, idx: int, v: String)
    requires
        distinct_keys(s),
        0 <= idx < s.len(),
    ensures
        vec_pairs_map(s.update(idx, (s[idx].0, v))) =~= vec_pairs_map(s).insert(s[idx].0@, v@),
    decreases s.len(),
{
    let t = s.update(idx, (s[idx].0, v));
    if idx == s.len() - 1 {
        assert(t.drop_last() =~= s.drop_last());
        assert(t.last() == (s[idx].0, v));
        assert(vec_pairs_map(t) =~= vec_pairs_map(s).insert(s[idx].0@, v@));
    } else {
        assert(t.drop_last() =~= s.drop_last().update(idx, (s[idx].0, v)));
        assert(s.drop_last()[idx] == s[idx]);
        lemma_vec_pairs_map_update(s.drop_last(), idx, v);
        assert(t.last() == s.last());
        // The final pair's key differs from the updated key, so the two
        // inserts commute.
        assert(s[idx].0@ != s.last().0@);
        assert(vec_pairs_map(t) =~= vec_pairs_map(s).insert(s[idx].0@, v@));
    }
}

/// Split one `key=value` pair on its first `=`.
fn split_pair(s: &str) -> (kv: (String, String))
    ensures
        kv.0@ == split_first(s@, '=').0,
        kv.1@ == split_first(s@, '=').1,
{
    let n = s.unicode_len();
    let mut i: usize = 0;
    while i < n
        invariant
            0 <= i <= n == s@.len(),
            forall|j: int| 0 <= j < i ==> s@[j] != '=',
        decreases n - i,
    {
        if s.get_char(i) == '=' {
            proof {
                lemma_split_first_at(s@, '=', i as int);
            }
            let k = String::from_str(s.substring_char(0, i));
            let v = String::from_str(s.substring_char(i + 1, n));
            return (k, v);
        }
        i += 1;
    }
    proof {
        lemma_split_first_no_sep(s@, '=');
    }
    (String::from_str(s.substring_char(0, n)), String::new())
}

/// Parse a form-encoded body into key-value pairs: split on `&`, each pair
/// split on its first `=`; on duplicate keys the last value wins, keys keep
/// the order of their first occurrence.
pub fn parse_data(data_str: &str) -> (params: Vec<(String, String)>)
    ensures
        vec_pairs_map(params@) == form_map(data_str@),
        distinct_keys(params@),
{
    let pairs = split_on(data_str, '&');
    let ghost p = split_char(data_str@, '&');
    let mut params: Vec<(String, String)> = Vec::new();
    let mut i: usize = 0;
    assert(p.take(0) =~= Seq::<Seq<char>>::empty());
    while i < pairs.len()
        invariant
            0 <= i <= pairs.len(),
            pairs.deep_view() =~~= p,
            vec_pairs_map(params@) =~= pairs_map(p.take(i as int)),
            distinct_keys(params@),
        decreases pairs.len() - i,
    {
        let (k, v) = split_pair(pairs[i].as_str());
        proof {
            assert(pairs@[i as int]@ == p[i as int]);
            assert(k@ == split_first(p[i as int], '=').0);
            assert(v@ == split_first(p[i as int], '=').1);
            assert(p.take(i + 1).drop_last() =~= p.take(i as int));
            assert(p.take(i + 1).last() == p[i as int]);
        }
        let ghost kv = (k@, v@);
        let mut found: bool = false;
        let mut at: usize = 0;
        let mut j: usize = 0;
        while j < params.len()
            invariant
                0 <= j <= params@.len(),
                found ==> at < params@.len() && params@[at as int].0@ == k@,
                !found ==> forall|jj: int| 0 <= jj < j ==> (#[trigger] params@[jj]).0@ != k@,
            decreases params@.len() - j,
        {
            if !found && params[j].0 == k {
                found = true;
                at = j;
            }
            j += 1;
        }
        if found {
            let ghost before = params@;
            params[at].1 = v;
            proof {
                let newv = params@[at as int].1;
                assert(newv@ == kv.1);
                assert(params@ =~= before.update(at as int, (before[at as int].0, newv)));
                lemma_vec_pairs_map_update(before, at as int, newv);
                assert(before[at as int].0@ == kv.0);
                assert(vec_pairs_map(params@) =~= pairs_map(p.take(i as int)).insert(kv.0, kv.1));
                assert(vec_pairs_map(params@) =~= pairs_map(p.take(i + 1)));
                assert(distinct_keys(params@)) by {
                    assert(forall|jj: int|
                        0 <= jj < params@.len() ==> (#[trigger] params@[jj]).0
                            == before[jj].0);
                }
            }
        } else {
            proof {
                lemma_vec_pairs_map_key(params@, k@);
            }
            let ghost before = params@;
            params.push((k, v));
            proof {
                assert(params@.drop_last() =~= before);
                assert(params@.last().0@ == kv.0 && params@.last().1@ == kv.1);
                assert(vec_pairs_map(params@) =~= vec_pairs_map(before).insert(kv.0, kv.1));
                assert(vec_pairs_map(params@) =~= pairs_map(p.take(i + 1)));
                assert(distinct_keys(params@));
            }
        }
        i += 1;
    }
    assert(p.take(p.len() as int) =~= p);
    params
}

/// Decide what to send for a method and an optional body. `GET` and `POST`
/// are supported after ASCII upper-casing; a GET ignores any body; any
/// other method is rejected as unsupported, under its upper-cased name.
pub fn dispatch(method: &str, data: Option<String>) -> (r: Result<RequestPlan, RequestFailure>)
    ensures
        ({
            let m = upper_seq(method@);
            &&& (m == "GET"@ ==> r matches Ok(RequestPlan::Get))
            &&& (m == "POST"@ && data is Some ==> (r matches Ok(RequestPlan::PostForm(ps))
                && vec_pairs_map(ps@) == form_map(data->Some_0@) && distinct_keys(ps@)))
            &&& (m == "POST"@ && data is None ==> r matches Ok(RequestPlan::PostEmpty))
            &&& (m != "GET"@ && m != "POST"@ ==> (r matches Err(
                RequestFailure::UnsupportedMethod(mm),
            ) && mm@ == m))
        }),
{
    proof {
        reveal_strlit("GET");
        reveal_strlit("POST");
        assert("GET"@.len() == 3);
        assert("POST"@.len() == 4);
    }
    let up = ascii_upper(method);
    if up == String::from_str("GET") {
        Ok(RequestPlan::Get)
    } else if up == String::from_str("POST") {
        match data {
            Some(d) => {
                let params = parse_data(d.as_str());
                Ok(RequestPlan::PostForm(params))
            },
            None => Ok(RequestPlan::PostEmpty),
        }
    } else {
        Err(RequestFailure::UnsupportedMethod(up))
    }
}

/// Classify what the transport layer returned: the body text of a
/// successful (2xx) response; otherwise the matching failure.
pub fn interpret_response(out: TransportOutcome) -> (r: Result<String, RequestFailure>)
    ensures
        match out {
            TransportOutcome::Response(st, body) => if !(200 <= st && st < 300) {
                r matches Err(RequestFailure::HttpStatusError(c)) && c == st
            } else {
                match body {
                    Some(b) => r matches Ok(t) && t@ == b@,
                    None => r matches Err(RequestFailure::BodyDecodeError),
                }
            },
            TransportOutcome::ConnectFailure => r matches Err(RequestFailure::ConnectionError),
            TransportOutcome::OtherFailure(m) => r matches Err(
                RequestFailure::TransportError(mm),
            ) && mm@ == m@,
        },
{
    match out {
        TransportOutcome::Response(st, body) => {
            if !(200 <= st && st < 300) {
                Err(RequestFailure::HttpStatusError(st))
            } else {
                match body {
                    Some(b) => Ok(b),
                    None => Err(RequestFailure::BodyDecodeError),
                }
            }
        },
        TransportOutcome::ConnectFailure => Err(RequestFailure::ConnectionError),
        TransportOutcome::OtherFailure(m) => Err(RequestFailure::TransportError(m)),
    }
}

/// The diagnostic line for a request failure.
pub fn failure_message(f: &RequestFailure) -> (r: String)
    ensures
        match *f {
            RequestFailure::UnsupportedMethod(ref m) => r@ == "Unsupported HTTP method: "@ + m@,
            RequestFailure::HttpStatusError(c) => r@ == "Request failed with status code: "@
                + dec_rep(c as nat) + "."@,
            RequestFailure::BodyDecodeError => r@ == "Failed to read response text."@,
            RequestFailure::ConnectionError => r@
                == "Unable to connect to the server. Perhaps the network is offline or the server hostname cannot be resolved."@,
            RequestFailure::TransportError(ref m) => r@ == "Request Error: "@ + m@,
        },
{
    match f {
        RequestFailure::UnsupportedMethod(m) => {
            let mut r = String::from_str("Unsupported HTTP method: ");
            r.append(m.as_str());
            r
        },
        RequestFailure::HttpStatusError(c) => {
            let mut digits: Vec<char> = Vec::new();
            push_dec_u16(*c, &mut digits);
            let mut r = String::from_str("Request failed with status code: ");
            r.append(chars_to_string(&digits).as_str());
            r.append(".");
            r
        },
        RequestFailure::BodyDecodeError => String::from_str("Failed to read response text."),
        RequestFailure::ConnectionError => String::from_str(
            "Unable to connect to the server. Perhaps the network is offline or the server hostname cannot be resolved.",
        ),
        RequestFailure::TransportError(m) => {
            let mut r = String::from_str("Request Error: ");
            r.append(m.as_str());
            r
        },
    }
}

} // verus!
