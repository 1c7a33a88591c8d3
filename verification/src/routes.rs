//! Route materialization: turn the elements yielded by a scan of the
//! persistent store into an in-memory route table from decoded endpoint
//! paths to storable responses.  A corrupt element — a failed iteration
//! step, a key that does not decode, or a value that does not parse — is
//! skipped on its own and never stops the build.

use vstd::prelude::*;

use crate::codec::decode;
use crate::codec::decode_bytes;
use crate::errors::DecodeError;
use crate::headers::entries_map;
use crate::response::StorableResponse;
use crate::record::parse_record;

use vstd::utf8::decode_utf8;
use vstd::utf8::encode_utf8;
use vstd::utf8::valid_utf8;

verus! {

/// The map denoted by a sequence of (path, value) pairs, a later pair with
/// the same path overriding an earlier one.
pub open spec fn assoc_map<V>(entries: Seq<(Seq<char>, V)>) -> Map<Seq<char>, V>
    decreases entries.len(),
{
    if entries.len() == 0 {
        Map::empty()
    } else {
        assoc_map(entries.drop_last()).insert(entries.last().0, entries.last().1)
    }
}

/// True when no two pairs share a path.
pub open spec fn assoc_unique<V>(entries: Seq<(Seq<char>, V)>) -> bool {
    forall|i: int, j: int|
        0 <= i < j < entries.len() ==> (#[trigger] entries[i]).0 != (#[trigger] entries[j]).0
}

/// A path is in the denoted map exactly when some pair carries it.
pub proof fn lemma_assoc_map_dom<V>(entries: Seq<(Seq<char>, V)>, k: Seq<char>)
    ensures
        assoc_map(entries).contains_key(k) <==> exists|i: int|
            0 <= i < entries.len() && (#[trigger] entries[i]).0 == k,
    decreases entries.len(),
{
    if entries.len() > 0 {
        lemma_assoc_map_dom(entries.drop_last(), k);
        if entries.last().0 == k {
            assert(entries[entries.len() - 1].0 == k);
        } else if assoc_map(entries).contains_key(k) {
            let i = choose|i: int|
                0 <= i < entries.drop_last().len() && (#[trigger] entries.drop_last()[i]).0 == k;
            assert(entries[i].0 == k);
        } else {
            assert forall|i: int| 0 <= i < entries.len() && (#[trigger] entries[i]).0 == k implies
            false by {
                if i < entries.len() - 1 {
                    assert(entries.drop_last()[i].0 == k);
                }
            }
        }
    }
}

/// Under unique paths, the denoted map sends each pair's path to its value.
pub proof fn lemma_assoc_map_at<V>(entries: Seq<(Seq<char>, V)>, i: int)
    requires
        assoc_unique(entries),
        0 <= i < entries.len(),
    ensures
        assoc_map(entries).contains_key(entries[i].0),
        assoc_map(entries)[entries[i].0] == entries[i].1,
    decreases entries.len(),
{
    if i == entries.len() - 1 {
        lemma_assoc_map_dom(entries, entries[i].0);
    } else {
        assert(entries.drop_last()[i] == entries[i]);
        assert forall|a: int, b: int| 0 <= a < b < entries.drop_last().len() implies (
        #[trigger] entries.drop_last()[a]).0 != (#[trigger] entries.drop_last()[b]).0 by {
            assert(entries[a] == entries.drop_last()[a]);
            assert(entries[b] == entries.drop_last()[b]);
        }
        lemma_assoc_map_at(entries.drop_last(), i);
        assert(entries[i].0 != entries.last().0);
    }
}

/// Under unique paths, the denoted map has exactly one member per pair.
pub proof fn lemma_assoc_map_len<V>(entries: Seq<(Seq<char>, V)>)
    requires
        assoc_unique(entries),
    ensures
        assoc_map(entries).dom().finite(),
        assoc_map(entries).dom().len() == entries.len(),
    decreases entries.len(),
{
    if entries.len() > 0 {
        assert forall|a: int, b: int| 0 <= a < b < entries.drop_last().len() implies (
        #[trigger] entries.drop_last()[a]).0 != (#[trigger] entries.drop_last()[b]).0 by {
            assert(entries[a] == entries.drop_last()[a]);
            assert(entries[b] == entries.drop_last()[b]);
        }
        lemma_assoc_map_len(entries.drop_last());
        lemma_assoc_map_dom(entries.drop_last(), entries.last().0);
        assert forall|i: int|
            0 <= i < entries.drop_last().len() implies (#[trigger] entries.drop_last()[i]).0
            != entries.last().0 by {
            assert(entries.drop_last()[i] == entries[i]);
            assert(entries[i].0 != entries[entries.len() - 1].0);
        }
        assert(!assoc_map(entries.drop_last()).contains_key(entries.last().0));
        assert(assoc_map(entries).dom() =~= assoc_map(entries.drop_last()).dom().insert(
            entries.last().0,
        ));
    } else {
        assert(assoc_map(entries).dom() =~= Set::<Seq<char>>::empty());
    }
}

proof fn lemma_assoc_update_same_key<V>(entries: Seq<(Seq<char>, V)>, i: int, k: Seq<char>, v: V)
    requires
        assoc_unique(entries),
        0 <= i < entries.len(),
        entries[i].0 == k,
    ensures
        assoc_unique(entries.update(i, (k, v))),
        assoc_map(entries.update(i, (k, v))) == assoc_map(entries).insert(k, v),
    decreases entries.len(),
{
    let upd = entries.update(i, (k, v));
    assert forall|a: int, b: int| 0 <= a < b < upd.len() implies (#[trigger] upd[a]).0 != (
    #[trigger] upd[b]).0 by {
        assert(entries[a].0 != entries[b].0);
        assert(upd[a].0 == if a == i {
            k
        } else {
            entries[a].0
        });
        assert(upd[b].0 == if b == i {
            k
        } else {
            entries[b].0
        });
    }
    if i == entries.len() - 1 {
        assert(upd.drop_last() =~= entries.drop_last());
        assert(upd.last() == (k, v));
        assert(assoc_map(upd) =~= assoc_map(entries).insert(k, v));
    } else {
        assert(upd.drop_last() =~= entries.drop_last().update(i, (k, v)));
        assert(entries.drop_last()[i] == entries[i]);
        assert forall|a: int, b: int| 0 <= a < b < entries.drop_last().len() implies (
        #[trigger] entries.drop_last()[a]).0 != (#[trigger] entries.drop_last()[b]).0 by {
            assert(entries[a] == entries.drop_last()[a]);
            assert(entries[b] == entries.drop_last()[b]);
        }
        lemma_assoc_update_same_key(entries.drop_last(), i, k, v);
        assert(upd.last() == entries.last());
        assert(entries[i].0 != entries.last().0);
        assert(assoc_map(upd) =~= assoc_map(entries).insert(k, v));
    }
}

/// True when a stored key decodes to an endpoint path.
pub open spec fn key_ok(key: Seq<char>) -> bool {
    valid_utf8(decode_bytes(encode_utf8(key)))
}

/// The endpoint path a stored key decodes to.
pub open spec fn key_path(key: Seq<char>) -> Seq<char> {
    decode_utf8(decode_bytes(encode_utf8(key)))
}

/// True when one yielded element materializes into a route: the iteration
/// step did not fail, the key decodes, and the value parses as a record.
pub open spec fn valid_item<E>(item: Result<(String, String), E>) -> bool {
    &&& item matches Ok(kv)
    &&& key_ok(kv.0@)
    &&& parse_record(kv.1@) is Some
}

/// The route a valid element materializes into: the decoded path, and the
/// record's body together with its denoted header map.
pub open spec fn item_route<E>(item: Result<(String, String), E>) -> (
    Seq<char>,
    (Seq<char>, Map<Seq<char>, Seq<char>>),
)
    recommends
        valid_item(item),
{
    match item {
        Ok(kv) => match parse_record(kv.1@) {
            Some(p) => (key_path(kv.0@), (p.0, entries_map(p.1))),
            None => arbitrary(),
        },
        Err(_) => arbitrary(),
    }
}

/// The route table denoted by a sequence of yielded elements: every valid
/// element contributes its route, the last one to name a path winning;
/// corrupt elements contribute nothing.
pub open spec fn table_map<E>(items: Seq<Result<(String, String), E>>) -> Map<
    Seq<char>,
    (Seq<char>, Map<Seq<char>, Seq<char>>),
>
    decreases items.len(),
{
    if items.len() == 0 {
        Map::empty()
    } else {
        let rest = table_map(items.drop_last());
        if valid_item(items.last()) {
            rest.insert(item_route(items.last()).0, item_route(items.last()).1)
        } else {
            rest
        }
    }
}

/// How many of the yielded elements are valid.
pub open spec fn count_valid<E>(items: Seq<Result<(String, String), E>>) -> int
    decreases items.len(),
{
    if items.len() == 0 {
        0int
    } else {
        count_valid(items.drop_last()) + if valid_item(items.last()) {
            1int
        } else {
            0int
        }
    }
}

/// A path is routed exactly when some valid element names it.
pub proof fn lemma_table_map_dom<E>(items: Seq<Result<(String, String), E>>, k: Seq<char>)
    ensures
        table_map(items).contains_key(k) <==> exists|i: int|
            0 <= i < items.len() && valid_item(#[trigger] items[i]) && item_route(items[i]).0 == k,
    decreases items.len(),
{
    if items.len() > 0 {
        lemma_table_map_dom(items.drop_last(), k);
        let n = items.len() - 1;
        if valid_item(items[n]) && item_route(items[n]).0 == k {
            assert(table_map(items).contains_key(k));
        } else if table_map(items).contains_key(k) {
            let i = choose|i: int|
                0 <= i < items.drop_last().len() && valid_item(
                    #[trigger] items.drop_last()[i],
                ) && item_route(items.drop_last()[i]).0 == k;
            assert(items[i] == items.drop_last()[i]);
        } else {
            assert forall|i: int|
                0 <= i < items.len() && valid_item(#[trigger] items[i]) && item_route(
                    items[i],
                ).0 == k implies false by {
                if i < n {
                    assert(items.drop_last()[i] == items[i]);
                }
            }
        }
    }
}

/// Every routed path carries the route of some valid element that names it.
pub proof fn lemma_table_map_value<E>(items: Seq<Result<(String, String), E>>, p: Seq<char>)
    requires
        table_map(items).contains_key(p),
    ensures
        exists|i: int|
            0 <= i < items.len() && valid_item(#[trigger] items[i]) && item_route(items[i]).0 == p
                && table_map(items)[p] == item_route(items[i]).1,
    decreases items.len(),
{
    let n = items.len() - 1;
    if valid_item(items[n]) && item_route(items[n]).0 == p {
        assert(table_map(items)[p] == item_route(items[n]).1);
    } else {
        assert(table_map(items)[p] == table_map(items.drop_last())[p]);
        assert(table_map(items.drop_last()).contains_key(p)) by {
            lemma_table_map_dom(items.drop_last(), p);
            lemma_table_map_dom(items, p);
            let i = choose|i: int|
                0 <= i < items.len() && valid_item(#[trigger] items[i]) && item_route(
                    items[i],
                ).0 == p;
            assert(i < n);
            assert(items.drop_last()[i] == items[i]);
        }
        lemma_table_map_value(items.drop_last(), p);
        let i = choose|i: int|
            0 <= i < items.drop_last().len() && valid_item(
                #[trigger] items.drop_last()[i],
            ) && item_route(items.drop_last()[i]).0 == p && table_map(items.drop_last())[p]
                == item_route(items.drop_last()[i]).1;
        assert(items[i] == items.drop_last()[i]);
    }
}

/// The codec round trip in the materializer's terms: a key made by
/// encoding a legal alias decodes back to exactly that alias.
pub proof fn lemma_encoded_key_round_trip(path: Seq<char>)
    requires
        crate::codec::legal_alias(path),
    ensures
        key_ok(crate::codec::encoded_key(path)),
        key_path(crate::codec::encoded_key(path)) == path,
{
    broadcast use vstd::utf8::encode_utf8_valid_utf8, vstd::utf8::encode_utf8_decode_utf8, vstd::utf8::decode_utf8_encode_utf8;

    crate::codec::lemma_codec_round_trip(path);
    crate::codec::lemma_encode_bytes_utf8(encode_utf8(path));
    let x = crate::codec::encode_bytes(encode_utf8(path));
    assert(encode_utf8(crate::codec::encoded_key(path)) == x);
}

/// A stored pair written for a legal alias — the alias encoded as the key,
/// a record serialized as the value — materializes into exactly that
/// alias's route: the original path, the original body, and the map the
/// original header pairs denote.
pub proof fn lemma_stored_record_materializes<E>(
    alias: Seq<char>,
    body: Seq<char>,
    hs: Seq<(Seq<char>, Seq<char>)>,
    key: String,
    value: String,
)
    requires
        crate::codec::legal_alias(alias),
        key@ == crate::codec::encoded_key(alias),
        value@ == crate::record::serialize_record(body, hs),
    ensures
        valid_item(Ok::<(String, String), E>((key, value))),
        item_route(Ok::<(String, String), E>((key, value))) == (alias, (body, entries_map(hs))),
{
    lemma_encoded_key_round_trip(alias);
    crate::record::lemma_parse_serialize(body, hs);
}

/// Route Materializer law: of N yielded elements of which K are corrupt,
/// exactly the N − K valid ones appear in the route table, provided the
/// valid ones name pairwise distinct paths.
pub proof fn lemma_table_map_count<E>(items: Seq<Result<(String, String), E>>)
    requires
        forall|i: int, j: int|
            0 <= i < j < items.len() && valid_item(#[trigger] items[i]) && valid_item(
                #[trigger] items[j],
            ) ==> item_route(items[i]).0 != item_route(items[j]).0,
    ensures
        0 <= count_valid(items) <= items.len(),
        table_map(items).dom().finite(),
        table_map(items).dom().len() == count_valid(items),
    decreases items.len(),
{
    if items.len() > 0 {
        let n = items.len() - 1;
        assert forall|i: int, j: int|
            0 <= i < j < items.drop_last().len() && valid_item(
                #[trigger] items.drop_last()[i],
            ) && valid_item(#[trigger] items.drop_last()[j]) implies item_route(
            items.drop_last()[i],
        ).0 != item_route(items.drop_last()[j]).0 by {
            assert(items[i] == items.drop_last()[i]);
            assert(items[j] == items.drop_last()[j]);
        }
        lemma_table_map_count(items.drop_last());
        if valid_item(items[n]) {
            lemma_table_map_dom(items.drop_last(), item_route(items[n]).0);
            assert forall|i: int|
                0 <= i < items.drop_last().len() && valid_item(
                    #[trigger] items.drop_last()[i],
                ) implies item_route(items.drop_last()[i]).0 != item_route(items[n]).0 by {
                assert(items[i] == items.drop_last()[i]);
            }
            assert(!table_map(items.drop_last()).contains_key(item_route(items[n]).0));
            assert(table_map(items).dom() =~= table_map(items.drop_last()).dom().insert(
                item_route(items[n]).0,
            ));
        }
    }
}

/// Without any assumption, the route table never holds more members than
/// there are valid elements: colliding decoded paths can only shrink it,
/// the last route to name a path winning.
pub proof fn lemma_table_map_count_bound<E>(items: Seq<Result<(String, String), E>>)
    ensures
        0 <= count_valid(items) <= items.len(),
        table_map(items).dom().finite(),
        table_map(items).dom().len() <= count_valid(items),
    decreases items.len(),
{
    if items.len() > 0 {
        lemma_table_map_count_bound(items.drop_last());
        let n = items.len() - 1;
        if valid_item(items[n]) {
            assert(table_map(items).dom() =~= table_map(items.drop_last()).dom().insert(
                item_route(items[n]).0,
            ));
        }
    } else {
        assert(table_map(items).dom() =~= Set::<Seq<char>>::empty());
    }
}

/// The character-level view of a sequence of owned strings.
pub open spec fn paths_view(s: Seq<String>) -> Seq<Seq<char>> {
    s.map_values(|p: String| p@)
}

/// The decoded paths of a sequence of yielded elements: one per element
/// whose scan step succeeded and whose key decodes, in scan order.
pub open spec fn listed_paths<E>(items: Seq<Result<(String, String), E>>) -> Seq<Seq<char>>
    decreases items.len(),
{
    if items.len() == 0 {
        seq![]
    } else {
        let rest = listed_paths(items.drop_last());
        match items.last() {
            Ok(kv) => if key_ok(kv.0@) {
                rest.push(key_path(kv.0@))
            } else {
                rest
            },
            Err(_) => rest,
        }
    }
}

/// Every listed path is the decoding of the key of some successfully
/// scanned element.
pub proof fn lemma_listed_paths_member<E>(items: Seq<Result<(String, String), E>>, t: int)
    requires
        0 <= t < listed_paths(items).len(),
    ensures
        exists|i: int|
            0 <= i < items.len() && ((#[trigger] items[i]) matches Ok(kv) && key_ok(kv.0@)
                && listed_paths(items)[t] == key_path(kv.0@)),
    decreases items.len(),
{
    let n = items.len() - 1;
    let rest = listed_paths(items.drop_last());
    if t < rest.len() {
        lemma_listed_paths_member(items.drop_last(), t);
        let i = choose|i: int|
            0 <= i < items.drop_last().len() && ((#[trigger] items.drop_last()[i]) matches Ok(kv)
                && key_ok(kv.0@) && listed_paths(items.drop_last())[t] == key_path(kv.0@));
        assert(items[i] == items.drop_last()[i]);
    } else {
        assert(items[n] matches Ok(kv) && key_ok(kv.0@) && listed_paths(items)[t] == key_path(
            kv.0@,
        ));
    }
}

/// The decoded endpoint paths of the yielded elements, exactly as
/// [`listed_paths`] gives them: one per element whose scan step succeeded
/// and whose key decodes, in scan order; every other element is skipped.
pub fn decoded_paths<E>(items: &Vec<Result<(String, String), E>>) -> (r: Vec<String>)
    ensures
        paths_view(r@) == listed_paths(items@),
{
    let mut out: Vec<String> = Vec::new();
    let mut i: usize = 0;
    proof {
        assert(items@.subrange(0, 0) =~= Seq::<Result<(String, String), E>>::empty());
        assert(paths_view(out@) =~= listed_paths(items@.subrange(0, 0)));
    }
    while i < items.len()
        invariant
            i <= items@.len(),
            out@.len() == listed_paths(items@.subrange(0, i as int)).len(),
            paths_view(out@) == listed_paths(items@.subrange(0, i as int)),
        decreases items@.len() - i,
    {
        let ghost prefix = items@.subrange(0, i as int);
        proof {
            assert(items@.subrange(0, i + 1 as int).drop_last() =~= prefix);
            assert(items@.subrange(0, i + 1 as int).last() == items@[i as int]);
        }
        if let Ok(kv) = &items[i] {
            if let Ok(path) = decode(kv.0.as_str()) {
                out.push(path);
                proof {
                    assert(paths_view(out@) =~= listed_paths(items@.subrange(0, i + 1 as int)));
                }
            }
        }
        i = i + 1;
    }
    proof {
        assert(items@.subrange(0, items@.len() as int) =~= items@);
    }
    out
}

/// The in-memory route table built at serve time: each decoded endpoint
/// path mapped to the response to replay for it.
#[derive(Debug)]
pub struct RouteTable {
    entries: Vec<(String, StorableResponse)>,
}

impl View for RouteTable {
    type V = Seq<(Seq<char>, (Seq<char>, Map<Seq<char>, Seq<char>>))>;

    closed spec fn view(&self) -> Seq<(Seq<char>, (Seq<char>, Map<Seq<char>, Seq<char>>))> {
        self.entries@.map_values(
            |e: (String, StorableResponse)| (e.0@, (e.1.body@, e.1.headers.as_map())),
        )
    }
}

impl RouteTable {
    /// Well-formed: paths pairwise distinct, every stored response
    /// well-formed.
    pub closed spec fn wf(&self) -> bool {
        &&& assoc_unique(self@)
        &&& forall|i: int| 0 <= i < self.entries@.len() ==> (#[trigger] self.entries@[i]).1.wf()
    }

    /// The map this table denotes.
    pub open spec fn as_map(&self) -> Map<Seq<char>, (Seq<char>, Map<Seq<char>, Seq<char>>)> {
        assoc_map(self@)
    }

    /// The empty route table.
    pub fn new() -> (r: RouteTable)
        ensures
            r@ == Seq::<(Seq<char>, (Seq<char>, Map<Seq<char>, Seq<char>>))>::empty(),
            r.wf(),
    {
        let r = RouteTable { entries: Vec::new() };
        proof {
            assert(r@ =~~= Seq::<(Seq<char>, (Seq<char>, Map<Seq<char>, Seq<char>>))>::empty());
        }
        r
    }

    /// How many routes the table holds.  Under well-formedness this is
    /// exactly the number of distinct routed paths.
    pub fn len(&self) -> (r: usize)
        ensures
            r == self@.len(),
            self.wf() ==> r == self.as_map().dom().len(),
    {
        proof {
            if self.wf() {
                lemma_assoc_map_len(self@);
            }
        }
        self.entries.len()
    }

    /// Route `path` to `resp`.  An entry already carrying the path is
    /// replaced in place; otherwise the entry is appended.
    pub fn insert(&mut self, path: String, resp: StorableResponse)
        requires
            old(self).wf(),
            resp.wf(),
        ensures
            final(self).wf(),
            final(self).as_map() == old(self).as_map().insert(
                path@,
                (resp.body@, resp.headers.as_map()),
            ),
    {
        let ghost pre = self@;
        let ghost val = (resp.body@, resp.headers.as_map());
        let mut i: usize = 0;
        while i < self.entries.len()
            invariant
                i <= self@.len(),
                self@ == pre,
                pre == old(self)@,
                self.wf(),
                resp.wf(),
                val == (resp.body@, resp.headers.as_map()),
                forall|j: int| 0 <= j < i ==> (#[trigger] pre[j]).0 != path@,
            decreases self@.len() - i,
        {
            if self.entries[i].0 == path {
                proof {
                    assert(pre[i as int].0 == path@);
                }
                let ghost pe = self.entries@;
                self.entries.remove(i);
                let ghost pm = self.entries@;
                self.entries.insert(i, (path, resp));
                proof {
                    assert(pm =~= pe.subrange(0, i as int) + pe.subrange(
                        i + 1 as int,
                        pe.len() as int,
                    ));
                    assert(self.entries@ =~= pe.update(i as int, self.entries@[i as int]));
                    assert(self.entries@[i as int] == (path, resp));
                    assert forall|j: int|
                        0 <= j < self@.len() implies self@[j] == #[trigger] pre.update(
                        i as int,
                        (path@, val),
                    )[j] by {
                        assert(self@[j] == (
                            self.entries@[j].0@,
                            (self.entries@[j].1.body@, self.entries@[j].1.headers.as_map()),
                        ));
                        if j == i {
                            assert(self.entries@[j] == (path, resp));
                        } else {
                            assert(self.entries@[j] == pe[j]);
                            assert(pre[j] == (
                                pe[j].0@,
                                (pe[j].1.body@, pe[j].1.headers.as_map()),
                            ));
                        }
                    }
                    assert(self@ =~~= pre.update(i as int, (path@, val)));
                    lemma_assoc_update_same_key(pre, i as int, path@, val);
                    assert forall|j: int|
                        0 <= j < self.entries@.len() implies (#[trigger] self.entries@[j]).1.wf()
                        by {
                        if j != i {
                            assert(self.entries@[j] == pe[j]);
                        }
                    }
                }
                return ;
            }
            i = i + 1;
        }
        self.entries.push((path, resp));
        proof {
            assert(self@ =~~= pre.push((path@, val)));
            assert(pre.push((path@, val)).drop_last() =~= pre);
            assert forall|a: int, b: int| 0 <= a < b < self@.len() implies (
            #[trigger] self@[a]).0 != (#[trigger] self@[b]).0 by {
                if b < pre.len() {
                    assert(pre[a] == self@[a] && pre[b] == self@[b]);
                } else {
                    assert(self@[b] == (path@, val));
                    assert(pre[a] == self@[a]);
                }
            }
        }
    }

    /// The response stored for `path`, if the table routes it.
    pub fn lookup(&self, path: &String) -> (r: Option<&StorableResponse>)
        requires
            self.wf(),
        ensures
            r is Some <==> self.as_map().contains_key(path@),
            r matches Some(resp) ==> self.as_map()[path@] == (resp.body@, resp.headers.as_map())
                && resp.wf(),
    {
        let mut i: usize = 0;
        while i < self.entries.len()
            invariant
                self.wf(),
                i <= self@.len(),
                forall|j: int| 0 <= j < i ==> (#[trigger] self@[j]).0 != path@,
            decreases self@.len() - i,
        {
            if self.entries[i].0 == *path {
                proof {
                    lemma_assoc_map_at(self@, i as int);
                }
                return Some(&self.entries[i].1);
            }
            i = i + 1;
        }
        proof {
            lemma_assoc_map_dom(self@, path@);
        }
        None
    }

    /// The entry at a position: its path and its response.
    pub fn entry_at(&self, i: usize) -> (r: (&String, &StorableResponse))
        requires
            i < self@.len(),
        ensures
            (r.0@, (r.1.body@, r.1.headers.as_map())) == self@[i as int],
            self.wf() ==> r.1.wf(),
    {
        (&self.entries[i].0, &self.entries[i].1)
    }
}

/// Build the route table from the elements a store scan yielded.  Each
/// valid element contributes its decoded path and parsed record, the last
/// element to name a path winning; each corrupt element is skipped on its
/// own, and the build itself never fails.
pub fn materialize<E>(items: Vec<Result<(String, String), E>>) -> (r: RouteTable)
    ensures
        r.wf(),
        r.as_map() == table_map(items@),
{
    let ghost all = items@;
    let mut table = RouteTable::new();
    let mut i: usize = 0;
    proof {
        assert(all.subrange(0, 0) =~= Seq::<Result<(String, String), E>>::empty());
        assert(table.as_map() =~~= table_map(all.subrange(0, 0)));
    }
    while i < items.len()
        invariant
            i <= items@.len(),
            all == items@,
            table.wf(),
            table.as_map() == table_map(all.subrange(0, i as int)),
        decreases items@.len() - i,
    {
        let ghost prefix = all.subrange(0, i as int);
        proof {
            assert(prefix.push(all[i as int]) =~= all.subrange(0, i + 1 as int));
            assert(all.subrange(0, i + 1 as int).drop_last() =~= prefix);
        }
        match &items[i] {
            Err(_) => {
                proof {
                    assert(!valid_item(all[i as int]));
                }
            },
            Ok(kv) => {
                match decode(kv.0.as_str()) {
                    Err(DecodeError) => {
                        proof {
                            assert(!valid_item(all[i as int]));
                        }
                    },
                    Ok(path) => {
                        match StorableResponse::from_json(kv.1.clone()) {
                            Err(_) => {
                                proof {
                                    assert(!valid_item(all[i as int]));
                                }
                            },
                            Ok(resp) => {
                                proof {
                                    assert(valid_item(all[i as int]));
                                    assert(item_route(all[i as int]) == (
                                        path@,
                                        (resp.body@, resp.headers.as_map()),
                                    ));
                                }
                                table.insert(path, resp);
                            },
                        }
                    },
                }
            },
        }
        i = i + 1;
    }
    proof {
        assert(all.subrange(0, all.len() as int) =~= all);
    }
    table
}

} // verus!
