//! The storable response record: a text body plus a header map, with its
//! serialized wire form, and the capture step that normalizes a fetched
//! HTTP response (or a file's contents) into such a record.

use vstd::prelude::*;
use vstd::string::StringExecFns;
use vstd::utf8::decode_utf8;
use vstd::utf8::valid_utf8;

use crate::errors::AddError;
use crate::errors::SerializationError;
use crate::headers::entries_map;
use crate::headers::lemma_entries_map_dom;
use crate::headers::lemma_entries_map_push;
use crate::headers::pairs_view;
use crate::headers::unique_keys;
use crate::headers::HeaderMap;
use crate::record::pairs_chars_view;
use crate::record::parse_record;
use crate::record::parse_record_chars;
use crate::record::serialize_record;
use crate::record::serialize_record_chars;
use crate::text::bytes_to_string;
use crate::text::chars_to_string;
use crate::text::string_to_chars;

verus! {

/// The unit of persisted state: the exact textual payload to replay and
/// one value per header name.
#[derive(Clone, Debug, PartialEq, Eq)]
pub struct StorableResponse {
    /// The exact textual payload to replay.
    pub body: String,
    /// The captured headers, one value per name.
    pub headers: HeaderMap,
}

/// The stored header entries that replay passes on: every entry whose name
/// is not `transfer-encoding`, in stored order.
pub open spec fn replayable(hs: Seq<(Seq<char>, Seq<char>)>) -> Seq<(Seq<char>, Seq<char>)>
    decreases hs.len(),
{
    if hs.len() == 0 {
        seq![]
    } else {
        let rest = replayable(hs.drop_last());
        if hs.last().0 == "transfer-encoding"@ {
            rest
        } else {
            rest.push(hs.last())
        }
    }
}

/// What `serde_json` computes for a response body: the canonical compact
/// rendering of the JSON value the text denotes, or nothing when the text
/// is not JSON.  The result is a function of the text alone.
pub uninterp spec fn json_canon(s: Seq<char>) -> Option<Seq<char>>;

/// Relies on `serde_json::from_str::<serde_json::Value>`, which succeeds
/// exactly when the text is JSON, and on `serde_json::Value::to_string`,
/// which renders the parsed value canonically; `json_canon` names the
/// composed result.
#[verifier::external_body]
fn canonicalize_json(s: &str) -> (r: Option<String>)
    ensures
        r is Some <==> json_canon(s@) is Some,
        r matches Some(t) ==> json_canon(s@) == Some(t@),
{
    match serde_json::from_str::<serde_json::Value>(s) {
        Ok(v) => Some(v.to_string()),
        Err(_) => None,
    }
}

/// Collect header (name, value) pairs into a header map, a later pair
/// overriding an earlier one with the same name.
pub fn headers_to_map(pairs: Vec<(String, String)>) -> (r: HeaderMap)
    ensures
        r.wf(),
        r.as_map() == entries_map(pairs_view(pairs@)),
{
    let ghost ps = pairs_view(pairs@);
    let mut r = HeaderMap::new();
    let mut i: usize = 0;
    proof {
        assert(ps.subrange(0, 0) =~= Seq::<(Seq<char>, Seq<char>)>::empty());
        assert(r.as_map() =~= entries_map(ps.subrange(0, 0)));
    }
    while i < pairs.len()
        invariant
            i <= pairs@.len(),
            ps == pairs_view(pairs@),
            r.wf(),
            r.as_map() == entries_map(ps.subrange(0, i as int)),
        decreases pairs@.len() - i,
    {
        let key = pairs[i].0.clone();
        let value = pairs[i].1.clone();
        proof {
            assert(ps[i as int] == (pairs@[i as int].0@, pairs@[i as int].1@));
        }
        r.insert(key, value);
        proof {
            lemma_entries_map_push(ps.subrange(0, i as int), ps[i as int].0, ps[i as int].1);
            assert(ps.subrange(0, i as int).push(ps[i as int]) =~= ps.subrange(0, i + 1 as int));
        }
        i = i + 1;
    }
    proof {
        assert(ps.subrange(0, ps.len() as int) =~= ps);
    }
    r
}

impl StorableResponse {
    /// Well-formed: the header map carries no duplicate names.
    pub open spec fn wf(&self) -> bool {
        self.headers.wf()
    }

    /// Build a response from a body and a header map.
    pub fn from(body: String, headers: HeaderMap) -> (r: StorableResponse)
        ensures
            r.body == body,
            r.headers == headers,
    {
        StorableResponse { body, headers }
    }

    /// Serialize this record to its stored text.
    pub fn to_json(&self) -> (r: String)
        ensures
            r@ == serialize_record(self.body@, self.headers@),
    {
        let body_chars = string_to_chars(self.body.as_str());
        let entries = self.headers.entries();
        let mut pair_vecs: Vec<(Vec<char>, Vec<char>)> = Vec::new();
        let mut i: usize = 0;
        while i < entries.len()
            invariant
                i <= entries@.len(),
                pairs_view(entries@) == self.headers@,
                pair_vecs@.len() == i,
                pairs_chars_view(pair_vecs@) == self.headers@.subrange(0, i as int),
            decreases entries@.len() - i,
        {
            let k = string_to_chars(entries[i].0.as_str());
            let v = string_to_chars(entries[i].1.as_str());
            pair_vecs.push((k, v));
            proof {
                assert(pairs_chars_view(pair_vecs@)[i as int] == (
                    pair_vecs@[i as int].0@,
                    pair_vecs@[i as int].1@,
                ));
                assert(self.headers@[i as int] == (entries@[i as int].0@, entries@[i as int].1@));
                assert(pairs_chars_view(pair_vecs@) =~= self.headers@.subrange(0, i + 1 as int));
            }
            i = i + 1;
        }
        proof {
            assert(self.headers@.subrange(0, self.headers@.len() as int) =~= self.headers@);
        }
        let out = serialize_record_chars(&body_chars, &pair_vecs);
        chars_to_string(&out)
    }

    /// Parse a stored text as a record.  Succeeds exactly on well-formed
    /// record texts; the record then carries the text's body and headers.
    pub fn from_json(data: String) -> (r: Result<StorableResponse, SerializationError>)
        ensures
            r is Ok <==> parse_record(data@) is Some,
            r matches Ok(resp) ==> parse_record(data@) matches Some(p) && {
                &&& resp.body@ == p.0
                &&& resp.headers.wf()
                &&& resp.headers.as_map() == entries_map(p.1)
                &&& unique_keys(p.1) ==> resp.headers@ == p.1
            },
    {
        let chars = string_to_chars(data.as_str());
        match parse_record_chars(&chars) {
            None => Err(SerializationError),
            Some((body_chars, pair_vecs)) => {
                let body = chars_to_string(&body_chars);
                let ghost hs = pairs_chars_view(pair_vecs@);
                let mut headers = HeaderMap::new();
                let mut i: usize = 0;
                proof {
                    assert(hs.subrange(0, 0) =~= Seq::<(Seq<char>, Seq<char>)>::empty());
                    assert(headers.as_map() =~= entries_map(hs.subrange(0, 0)));
                }
                while i < pair_vecs.len()
                    invariant
                        i <= pair_vecs@.len(),
                        hs == pairs_chars_view(pair_vecs@),
                        headers.wf(),
                        headers.as_map() == entries_map(hs.subrange(0, i as int)),
                        unique_keys(hs) ==> headers@ == hs.subrange(0, i as int),
                    decreases pair_vecs@.len() - i,
                {
                    let k = chars_to_string(&pair_vecs[i].0);
                    let v = chars_to_string(&pair_vecs[i].1);
                    proof {
                        assert(hs[i as int] == (pair_vecs@[i as int].0@, pair_vecs@[i as int].1@));
                    }
                    headers.insert(k, v);
                    proof {
                        lemma_entries_map_push(
                            hs.subrange(0, i as int),
                            hs[i as int].0,
                            hs[i as int].1,
                        );
                        assert(hs.subrange(0, i as int).push(hs[i as int]) =~= hs.subrange(
                            0,
                            i + 1 as int,
                        ));
                        if unique_keys(hs) {
                            lemma_entries_map_dom(hs.subrange(0, i as int), hs[i as int].0);
                            assert forall|t: int|
                                0 <= t < i implies (#[trigger] hs.subrange(0, i as int)[t]).0 != hs[
                                i as int].0 by {
                                assert(hs.subrange(0, i as int)[t] == hs[t]);
                            }
                        }
                    }
                    i = i + 1;
                }
                proof {
                    assert(hs.subrange(0, hs.len() as int) =~= hs);
                }
                Ok(StorableResponse { body, headers })
            },
        }
    }

    /// The headers handed to the mock server for replay: exactly the
    /// stored entries whose name is not the transport-specific
    /// `transfer-encoding`, in stored order.  `transfer-encoding` is never
    /// among them.
    pub fn replay_headers(&self) -> (r: HeaderMap)
        requires
            self.wf(),
        ensures
            r.wf(),
            r@ == replayable(self.headers@),
            r.as_map() == self.headers.as_map().remove("transfer-encoding"@),
            !r.as_map().contains_key("transfer-encoding"@),
    {
        let te = String::from_str("transfer-encoding");
        let entries = self.headers.entries();
        let mut r = HeaderMap::new();
        let mut i: usize = 0;
        proof {
            assert(self.headers@.subrange(0, 0) =~= Seq::<(Seq<char>, Seq<char>)>::empty());
            assert(r.as_map() =~= entries_map(self.headers@.subrange(0, 0)).remove(te@));
            assert(r@ =~= replayable(self.headers@.subrange(0, 0)));
        }
        while i < entries.len()
            invariant
                i <= entries@.len(),
                te@ == "transfer-encoding"@,
                pairs_view(entries@) == self.headers@,
                unique_keys(self.headers@),
                r.wf(),
                r@ == replayable(self.headers@.subrange(0, i as int)),
                r.as_map() == entries_map(self.headers@.subrange(0, i as int)).remove(te@),
            decreases entries@.len() - i,
        {
            let ghost prefix = self.headers@.subrange(0, i as int);
            let ghost entry = self.headers@[i as int];
            proof {
                assert(entry == (entries@[i as int].0@, entries@[i as int].1@));
                assert(prefix.push(entry) =~= self.headers@.subrange(0, i + 1 as int));
                assert(self.headers@.subrange(0, i + 1 as int).drop_last() =~= prefix);
                lemma_entries_map_push(prefix, entry.0, entry.1);
            }
            if entries[i].0 == te {
                proof {
                    assert(entry.0 == te@);
                    assert(entries_map(self.headers@.subrange(0, i + 1 as int)).remove(te@)
                        =~= entries_map(prefix).remove(te@));
                    assert(replayable(self.headers@.subrange(0, i + 1 as int)) == replayable(
                        prefix,
                    ));
                }
            } else {
                let k = entries[i].0.clone();
                let v = entries[i].1.clone();
                proof {
                    assert(k@ == entry.0 && v@ == entry.1);
                    assert(entry.0 != te@);
                    // The name is new to `r`: it occurs at position i of the
                    // stored entries, and names are unique there.
                    lemma_entries_map_dom(prefix, entry.0);
                    assert forall|j: int| 0 <= j < prefix.len() implies (
                    #[trigger] prefix[j]).0 != entry.0 by {
                        assert(prefix[j] == self.headers@[j]);
                    }
                    assert(!r.as_map().contains_key(k@));
                }
                let ghost pre = r@;
                r.insert(k, v);
                proof {
                    assert(r@ == pre.push(entry));
                    assert(replayable(self.headers@.subrange(0, i + 1 as int)) == replayable(
                        prefix,
                    ).push(entry));
                    assert(entries_map(self.headers@.subrange(0, i + 1 as int)).remove(te@)
                        =~= entries_map(prefix).remove(te@).insert(entry.0, entry.1));
                }
            }
            i = i + 1;
        }
        proof {
            assert(self.headers@.subrange(0, self.headers@.len() as int) =~= self.headers@);
        }
        r
    }
}

/// Normalize one fetched HTTP response into a storable record.
///
/// Fails with `AddError::Fetch` on a non-success status and with
/// `AddError::Decode` when the body bytes are not UTF-8 text or the text is
/// not JSON.  On success the stored body is the canonical rendering of the
/// JSON payload, and the headers are the captured pairs, a later value
/// overriding an earlier one with the same name.
pub fn capture_response(status: u16, headers: Vec<(String, String)>, body: Vec<u8>) -> (r: Result<
    StorableResponse,
    AddError,
>)
    ensures
        r is Ok <==> (200 <= status < 300 && valid_utf8(body@) && json_canon(decode_utf8(body@))
            is Some),
        !(200 <= status < 300) ==> r == Err::<StorableResponse, AddError>(AddError::Fetch),
        200 <= status < 300 && !valid_utf8(body@) ==> r == Err::<StorableResponse, AddError>(
            AddError::Decode,
        ),
        200 <= status < 300 && valid_utf8(body@) && json_canon(decode_utf8(body@)) is None ==> r
            == Err::<StorableResponse, AddError>(AddError::Decode),
        r matches Ok(resp) ==> {
            &&& json_canon(decode_utf8(body@)) matches Some(t) && resp.body@ == t
            &&& resp.headers.wf()
            &&& resp.headers.as_map() == entries_map(pairs_view(headers@))
        },
{
    if !(200 <= status && status < 300) {
        return Err(AddError::Fetch);
    }
    let text = match bytes_to_string(body) {
        None => {
            return Err(AddError::Decode);
        },
        Some(t) => t,
    };
    let canon = match canonicalize_json(text.as_str()) {
        None => {
            return Err(AddError::Decode);
        },
        Some(c) => c,
    };
    Ok(StorableResponse { body: canon, headers: headers_to_map(headers) })
}

/// Wrap a file's contents as a storable record: the contents become the
/// body, the header map is empty.
pub fn capture_file(contents: String) -> (r: StorableResponse)
    ensures
        r.body == contents,
        r.headers@ == Seq::<(Seq<char>, Seq<char>)>::empty(),
        r.wf(),
{
    StorableResponse { body: contents, headers: HeaderMap::new() }
}

} // verus!
