//! The store's interface, as traits: the connection gate (`DB`), the
//! key/value configuration table (`Config`), and the record table with
//! its filter engine (`MessageDB`). Each trait states its operations'
//! behaviour over spec-level views that an implementation maps onto
//! its own state; `LogStore` implements all three.

use crate::codec::MessageData;
use crate::filter::{FilterConfig, MessageField};
use crate::store::{
    cfg_has, cfg_has_key, filtered_rows, is_i32_field, is_str_field, is_u64_field, i32_field,
    ordered, page, row_le_fn, row_matches, row_of, str_field, texts_contain, u64_field,
    unmatched_rows, DistinctValues, DBMessage, LogStore, RowView, StoreError,
};
use crate::strutil::lex_lt;
use vstd::prelude::*;
use vstd::relations::sorted_by;

verus! {

/// The connection gate: a store must be connected before use and stays
/// connected once it is.
pub trait DB: Sized {
    /// The implementation's structural invariant.
    spec fn inv(&self) -> bool;

    /// Whether the store has been connected.
    spec fn connected(&self) -> bool;

    /// Connects the store, creating its state on first use; connecting
    /// an already connected store changes nothing.
    fn connect(&mut self, path: &str) -> (r: Result<(), StoreError>)
        requires
            old(self).inv(),
        ensures
            final(self).inv(),
            r is Ok,
            final(self).connected(),
    ;

    /// Whether the store has been connected.
    fn is_connected(&self) -> (r: bool)
        ensures
            r == self.connected(),
    ;
}

impl DB for LogStore {
    open spec fn inv(&self) -> bool {
        self.wf()
    }

    open spec fn connected(&self) -> bool {
        self@.connected
    }

    fn connect(&mut self, path: &str) -> (r: Result<(), StoreError>) {
        LogStore::connect(self, path)
    }

    fn is_connected(&self) -> (r: bool) {
        LogStore::is_connected(self)
    }
}

/// The key/value configuration table: each key holds one value.
pub trait Config: DB {
    /// The stored entries, as character sequences.
    spec fn configs(&self) -> Seq<(Seq<char>, Seq<char>)>;

    /// The value stored under `key`, if any.
    fn get_config(&self, key: &str) -> (r: Result<Option<String>, StoreError>)
        requires
            self.inv(),
        ensures
            r is Ok <==> self.connected(),
            r is Err ==> r->Err_0 == StoreError::NotConnected,
            r is Ok ==> {
                &&& r->Ok_0 is Some <==> cfg_has_key(self.configs(), key@)
                &&& r->Ok_0 is Some ==> cfg_has(self.configs(), key@, r->Ok_0->0@)
            },
    ;

    /// Stores `value` under `key`, inserting the key or replacing its
    /// previous value.
    fn set_config(&mut self, key: &str, value: &str) -> (r: Result<(), StoreError>)
        requires
            old(self).inv(),
        ensures
            final(self).inv(),
            r is Ok <==> old(self).connected(),
            r is Err ==> r->Err_0 == StoreError::NotConnected && *final(self) == *old(self),
            r is Ok ==> final(self).connected() == old(self).connected() && (forall|
                k2: Seq<char>,
                v2: Seq<char>,
            |
                cfg_has(final(self).configs(), k2, v2) <==> (if k2 == key@ {
                    v2 == value@
                } else {
                    cfg_has(old(self).configs(), k2, v2)
                })),
    ;

    /// Every configuration entry, in ascending key order.
    fn get_all_configs(&self) -> (r: Result<Vec<(String, String)>, StoreError>)
        requires
            self.inv(),
        ensures
            r is Ok <==> self.connected(),
            r is Err ==> r->Err_0 == StoreError::NotConnected,
            r is Ok ==> {
                &&& r->Ok_0@.len() == self.configs().len()
                &&& forall|i: int|
                    0 <= i < r->Ok_0@.len() ==> (#[trigger] r->Ok_0@[i].0@, r->Ok_0@[i].1@)
                        == self.configs()[i]
            },
    ;
}

impl Config for LogStore {
    open spec fn configs(&self) -> Seq<(Seq<char>, Seq<char>)> {
        self@.configs
    }

    fn get_config(&self, key: &str) -> (r: Result<Option<String>, StoreError>) {
        LogStore::get_config(self, key)
    }

    fn set_config(&mut self, key: &str, value: &str) -> (r: Result<(), StoreError>) {
        LogStore::set_config(self, key, value)
    }

    fn get_all_configs(&self) -> (r: Result<Vec<(String, String)>, StoreError>) {
        let r = LogStore::get_all_configs(self);
        proof {
            if r is Ok {
                let out = r->Ok_0;
                assert forall|i: int| 0 <= i < out@.len() implies (
                    #[trigger] out@[i].0@,
                    out@[i].1@,
                ) == self.configs()[i] by {
                    assert(crate::store::configs_view(out@)[i] == (out@[i].0@, out@[i].1@));
                }
            }
        }
        r
    }
}

/// The record table and its filter engine: append-only ingestion,
/// paginated and filtered queries, distinct-value listing, and
/// filtered deletion.
pub trait MessageDB: DB {
    /// The stored rows, in insertion (ascending identifier) order.
    spec fn rows(&self) -> Seq<RowView>;

    /// The identifier the next inserted record receives.
    spec fn fresh_id(&self) -> u64;

    /// Appends a record under a fresh identifier and returns that
    /// identifier.
    fn insert_message(&mut self, message: &MessageData) -> (r: Result<u64, StoreError>)
        requires
            old(self).inv(),
        ensures
            final(self).inv(),
            !old(self).connected() ==> r is Err && r->Err_0 == StoreError::NotConnected
                && *final(self) == *old(self),
            old(self).connected() && old(self).fresh_id() == u64::MAX ==> r is Err && r->Err_0
                == StoreError::IdSpaceExhausted && *final(self) == *old(self),
            old(self).connected() && old(self).fresh_id() < u64::MAX ==> {
                &&& r is Ok
                &&& r->Ok_0 == old(self).fresh_id()
                &&& final(self).rows() == old(self).rows().push(
                    row_of(old(self).fresh_id(), message@),
                )
                &&& final(self).fresh_id() == old(self).fresh_id() + 1
                &&& final(self).connected()
            },
    ;

    /// One page of the stored rows, ordered by `id` ascending or
    /// descending.
    fn get_messages(&self, limit: i32, offset: i32, desc: bool) -> (r: Result<
        Vec<DBMessage>,
        StoreError,
    >)
        ensures
            r is Ok <==> self.connected(),
            r is Err ==> r->Err_0 == StoreError::NotConnected,
            r is Ok ==> r->Ok_0.deep_view() == page(
                ordered(self.rows(), desc),
                limit as int,
                offset as int,
            ),
    ;

    /// The total number of stored rows.
    fn get_message_count(&self) -> (r: Result<usize, StoreError>)
        ensures
            r is Ok <==> self.connected(),
            r is Ok ==> r->Ok_0 == self.rows().len(),
            r is Err ==> r->Err_0 == StoreError::NotConnected,
    ;

    /// One page of the rows the filter matches, ordered by the named
    /// column, ascending or descending.
    fn filter_messages(
        &self,
        config: &FilterConfig,
        order_by: &MessageField,
        limit: &i32,
        offset: &i32,
        desc: bool,
    ) -> (r: Result<Vec<DBMessage>, StoreError>)
        ensures
            r is Ok <==> self.connected(),
            r is Err ==> r->Err_0 == StoreError::NotConnected,
            r is Ok ==> exists|sorted: Seq<RowView>|
                {
                    &&& sorted.to_multiset() == filtered_rows(self.rows(), *config).to_multiset()
                    &&& sorted_by(sorted, row_le_fn(*order_by, desc))
                    &&& r->Ok_0.deep_view() == page(sorted, *limit as int, *offset as int)
                },
            r is Ok ==> sorted_by(r->Ok_0.deep_view(), row_le_fn(*order_by, desc)),
            r is Ok ==> forall|i: int|
                0 <= i < r->Ok_0.deep_view().len() ==> row_matches(
                    *config,
                    #[trigger] r->Ok_0.deep_view()[i],
                ),
    ;

    /// The number of stored rows the filter matches.
    fn filter_messages_count(&self, config: &FilterConfig) -> (r: Result<usize, StoreError>)
        ensures
            r is Ok <==> self.connected(),
            r is Ok ==> r->Ok_0 == filtered_rows(self.rows(), *config).len(),
            r is Err ==> r->Err_0 == StoreError::NotConnected,
    ;

    /// The sorted set of values present in the named column.
    fn get_distinct(&self, field: &MessageField) -> (r: Result<DistinctValues, StoreError>)
        ensures
            r is Ok <==> self.connected(),
            r is Err ==> r->Err_0 == StoreError::NotConnected,
            r is Ok && is_u64_field(*field) ==> {
                &&& r->Ok_0 is Unsigned
                &&& forall|p: int, q: int|
                    0 <= p < q < r->Ok_0->Unsigned_0@.len() ==> r->Ok_0->Unsigned_0@[p] < r
                        ->Ok_0->Unsigned_0@[q]
                &&& forall|y: u64|
                    r->Ok_0->Unsigned_0@.contains(y) <==> exists|k: int|
                        0 <= k < self.rows().len() && u64_field(*field, #[trigger] self.rows()[k])
                            == y
            },
            r is Ok && is_str_field(*field) ==> {
                &&& r->Ok_0 is Text
                &&& forall|p: int, q: int|
                    0 <= p < q < r->Ok_0->Text_0.deep_view().len() ==> lex_lt(
                        r->Ok_0->Text_0.deep_view()[p],
                        r->Ok_0->Text_0.deep_view()[q],
                    )
                &&& forall|s: Seq<char>|
                    texts_contain(r->Ok_0->Text_0.deep_view(), s) <==> exists|k: int|
                        0 <= k < self.rows().len() && str_field(*field, #[trigger] self.rows()[k])
                            == s
            },
            r is Ok && is_i32_field(*field) ==> {
                &&& r->Ok_0 is Signed
                &&& forall|p: int, q: int|
                    0 <= p < q < r->Ok_0->Signed_0@.len() ==> r->Ok_0->Signed_0@[p] < r
                        ->Ok_0->Signed_0@[q]
                &&& forall|y: i32|
                    r->Ok_0->Signed_0@.contains(y) <==> exists|k: int|
                        0 <= k < self.rows().len() && i32_field(*field, #[trigger] self.rows()[k])
                            == y
            },
    ;

    /// Deletes every row the filter matches and returns how many were
    /// removed. With an empty filter this removes every row.
    fn delete_messages(&mut self, config: &FilterConfig) -> (r: Result<usize, StoreError>)
        requires
            old(self).inv(),
        ensures
            final(self).inv(),
            r is Ok <==> old(self).connected(),
            r is Err ==> r->Err_0 == StoreError::NotConnected && *final(self) == *old(self),
            r is Ok ==> {
                &&& final(self).rows() == unmatched_rows(old(self).rows(), *config)
                &&& r->Ok_0 == filtered_rows(old(self).rows(), *config).len()
                &&& final(self).connected() == old(self).connected()
                &&& final(self).fresh_id() == old(self).fresh_id()
            },
    ;
}

impl MessageDB for LogStore {
    open spec fn rows(&self) -> Seq<RowView> {
        self@.rows
    }

    open spec fn fresh_id(&self) -> u64 {
        self@.next_id
    }

    fn insert_message(&mut self, message: &MessageData) -> (r: Result<u64, StoreError>) {
        LogStore::insert_message(self, message)
    }

    fn get_messages(&self, limit: i32, offset: i32, desc: bool) -> (r: Result<
        Vec<DBMessage>,
        StoreError,
    >) {
        LogStore::get_messages(self, limit, offset, desc)
    }

    fn get_message_count(&self) -> (r: Result<usize, StoreError>) {
        LogStore::get_message_count(self)
    }

    fn filter_messages(
        &self,
        config: &FilterConfig,
        order_by: &MessageField,
        limit: &i32,
        offset: &i32,
        desc: bool,
    ) -> (r: Result<Vec<DBMessage>, StoreError>) {
        LogStore::filter_messages(self, config, order_by, limit, offset, desc)
    }

    fn filter_messages_count(&self, config: &FilterConfig) -> (r: Result<usize, StoreError>) {
        LogStore::filter_messages_count(self, config)
    }

    fn get_distinct(&self, field: &MessageField) -> (r: Result<DistinctValues, StoreError>) {
        let r = LogStore::get_distinct(self, field);
        proof {
            let rr = self.rows();
            if r is Ok && is_u64_field(*field) {
                let v = r->Ok_0->Unsigned_0;
                assert forall|y: u64| v@.contains(y) implies exists|k: int|
                    0 <= k < rr.len() && u64_field(*field, #[trigger] rr[k]) == y by {
                    let k = choose|k: int|
                        0 <= k < self@.rows.len() && u64_field(*field, #[trigger] self@.rows[k])
                            == y;
                    assert(u64_field(*field, rr[k]) == y);
                }
                assert forall|y: u64|
                    (exists|k: int| 0 <= k < rr.len() && u64_field(*field, #[trigger] rr[k]) == y)
                        implies v@.contains(y) by {
                    let k = choose|k: int| 0 <= k < rr.len() && u64_field(*field, rr[k]) == y;
                    assert(u64_field(*field, self@.rows[k]) == y);
                }
            }
            if r is Ok && is_str_field(*field) {
                let v = r->Ok_0->Text_0;
                assert forall|s: Seq<char>| texts_contain(v.deep_view(), s) implies exists|k: int|
                    0 <= k < rr.len() && str_field(*field, #[trigger] rr[k]) == s by {
                    let k = choose|k: int|
                        0 <= k < self@.rows.len() && str_field(*field, #[trigger] self@.rows[k])
                            == s;
                    assert(str_field(*field, rr[k]) == s);
                }
                assert forall|s: Seq<char>|
                    (exists|k: int| 0 <= k < rr.len() && str_field(*field, #[trigger] rr[k]) == s)
                        implies texts_contain(v.deep_view(), s) by {
                    let k = choose|k: int| 0 <= k < rr.len() && str_field(*field, rr[k]) == s;
                    assert(str_field(*field, self@.rows[k]) == s);
                }
            }
            if r is Ok && is_i32_field(*field) {
                let v = r->Ok_0->Signed_0;
                assert forall|y: i32| v@.contains(y) implies exists|k: int|
                    0 <= k < rr.len() && i32_field(*field, #[trigger] rr[k]) == y by {
                    let k = choose|k: int|
                        0 <= k < self@.rows.len() && i32_field(*field, #[trigger] self@.rows[k])
                            == y;
                    assert(i32_field(*field, rr[k]) == y);
                }
                assert forall|y: i32|
                    (exists|k: int| 0 <= k < rr.len() && i32_field(*field, #[trigger] rr[k]) == y)
                        implies v@.contains(y) by {
                    let k = choose|k: int| 0 <= k < rr.len() && i32_field(*field, rr[k]) == y;
                    assert(i32_field(*field, self@.rows[k]) == y);
                }
            }
        }
        r
    }

    fn delete_messages(&mut self, config: &FilterConfig) -> (r: Result<usize, StoreError>) {
        LogStore::delete_messages(self, config)
    }
}

} // verus!
