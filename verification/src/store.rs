//! The persistent store and its filter engine: an append-only table of
//! log records keyed by a monotonically increasing `id`, with paginated
//! fetch, filtered fetch and count, distinct-value listing, filtered
//! delete, and a key/value configuration table.
//!
//! The store must be connected before use; every data operation fails
//! with `NotConnected` until then. Deletion with an empty filter
//! removes every row: an empty filter matches the whole table by
//! design.

use crate::codec::{MessageData, MessageView};
use crate::filter::{
    config_is_empty, eval_pattern, eval_range_i32, eval_range_u64, pattern_matches, range_matches,
    FilterConfig, MessageField,
};
use crate::strutil::{
    clone_strings, joined_text, join_messages, lemma_lex_trans, lemma_lex_trichotomy, lex_lt,
    str_compare, StrOrder,
};
use vstd::prelude::*;
use vstd::relations::sorted_by;

verus! {

/// Why a store operation failed.
#[derive(Clone, Copy, Debug, PartialEq, Eq, Structural)]
pub enum StoreError {
    /// The store has not been connected yet.
    NotConnected,
    /// Every identifier has been handed out; no further row can be
    /// assigned a fresh one.
    IdSpaceExhausted,
}

/// A persisted log record: the ingested fields plus the store-assigned
/// row identifier.
#[derive(Debug, PartialEq)]
pub struct DBMessage {
    pub id: u64,
    pub role: String,
    pub label: String,
    pub file: String,
    pub function: String,
    pub time: u64,
    pub process_id: u64,
    pub thread_id: u64,
    pub line: i32,
    pub level: i32,
    pub messages: Vec<String>,
}

/// The mathematical shape of a persisted row.
pub struct RowView {
    pub id: u64,
    pub role: Seq<char>,
    pub label: Seq<char>,
    pub file: Seq<char>,
    pub function: Seq<char>,
    pub time: u64,
    pub process_id: u64,
    pub thread_id: u64,
    pub line: i32,
    pub level: i32,
    pub messages: Seq<Seq<char>>,
}

impl View for DBMessage {
    type V = RowView;

    open spec fn view(&self) -> RowView {
        RowView {
            id: self.id,
            role: self.role@,
            label: self.label@,
            file: self.file@,
            function: self.function@,
            time: self.time,
            process_id: self.process_id,
            thread_id: self.thread_id,
            line: self.line,
            level: self.level,
            messages: self.messages.deep_view(),
        }
    }
}

impl DeepView for DBMessage {
    type V = RowView;

    open spec fn deep_view(&self) -> RowView {
        self.view()
    }
}

impl Clone for DBMessage {
    /// Clones the row, preserving every field.
    fn clone(&self) -> (r: Self)
        ensures
            r@ == self@,
    {
        let r = DBMessage {
            id: self.id,
            role: self.role.clone(),
            label: self.label.clone(),
            file: self.file.clone(),
            function: self.function.clone(),
            time: self.time,
            process_id: self.process_id,
            thread_id: self.thread_id,
            line: self.line,
            level: self.level,
            messages: clone_strings(&self.messages),
        };
        r
    }
}

/// The row a record becomes when persisted under `id`.
pub open spec fn row_of(id: u64, m: MessageView) -> RowView {
    RowView {
        id,
        role: m.role,
        label: m.label,
        file: m.file,
        function: m.function,
        time: m.time,
        process_id: m.process_id,
        thread_id: m.thread_id,
        line: m.line,
        level: m.level,
        messages: m.messages,
    }
}

/// Whether a row satisfies every present predicate slot of the filter.
/// The `messages` pattern applies to the stable textual form of the
/// message sequence.
pub open spec fn row_matches(c: FilterConfig, r: RowView) -> bool {
    &&& match c.label {
        Some(p) => pattern_matches(p.mode, p.value@, r.label),
        None => true,
    }
    &&& match c.role {
        Some(p) => pattern_matches(p.mode, p.value@, r.role),
        None => true,
    }
    &&& match c.file {
        Some(p) => pattern_matches(p.mode, p.value@, r.file),
        None => true,
    }
    &&& match c.function {
        Some(p) => pattern_matches(p.mode, p.value@, r.function),
        None => true,
    }
    &&& match c.level {
        Some(nr) => range_matches(nr, r.level as int),
        None => true,
    }
    &&& match c.time {
        Some(nr) => range_matches(nr, r.time as int),
        None => true,
    }
    &&& match c.process_id {
        Some(nr) => range_matches(nr, r.process_id as int),
        None => true,
    }
    &&& match c.thread_id {
        Some(nr) => range_matches(nr, r.thread_id as int),
        None => true,
    }
    &&& match c.line {
        Some(nr) => range_matches(nr, r.line as int),
        None => true,
    }
    &&& match c.messages {
        Some(p) => pattern_matches(p.mode, p.value@, joined_text(r.messages)),
        None => true,
    }
}

/// The rows of `rows` that the filter matches, in stored order.
pub open spec fn filtered_rows(rows: Seq<RowView>, c: FilterConfig) -> Seq<RowView> {
    rows.filter(|r: RowView| row_matches(c, r))
}

/// The rows of `rows` that the filter does not match, in stored order.
pub open spec fn unmatched_rows(rows: Seq<RowView>, c: FilterConfig) -> Seq<RowView> {
    rows.filter(|r: RowView| !row_matches(c, r))
}

/// Evaluates the whole filter against one stored row.
pub fn eval_filter(c: &FilterConfig, m: &DBMessage) -> (r: bool)
    ensures
        r == row_matches(*c, m@),
{
    let label_ok = match &c.label {
        Some(p) => eval_pattern(p, m.label.as_str()),
        None => true,
    };
    let role_ok = match &c.role {
        Some(p) => eval_pattern(p, m.role.as_str()),
        None => true,
    };
    let file_ok = match &c.file {
        Some(p) => eval_pattern(p, m.file.as_str()),
        None => true,
    };
    let function_ok = match &c.function {
        Some(p) => eval_pattern(p, m.function.as_str()),
        None => true,
    };
    let level_ok = match &c.level {
        Some(nr) => eval_range_i32(nr, m.level),
        None => true,
    };
    let time_ok = match &c.time {
        Some(nr) => eval_range_u64(nr, m.time),
        None => true,
    };
    let process_ok = match &c.process_id {
        Some(nr) => eval_range_u64(nr, m.process_id),
        None => true,
    };
    let thread_ok = match &c.thread_id {
        Some(nr) => eval_range_u64(nr, m.thread_id),
        None => true,
    };
    let line_ok = match &c.line {
        Some(nr) => eval_range_i32(nr, m.line),
        None => true,
    };
    let messages_ok = match &c.messages {
        Some(p) => {
            let text = join_messages(&m.messages);
            eval_pattern(p, text.as_str())
        },
        None => true,
    };
    label_ok && role_ok && file_ok && function_ok && level_ok && time_ok && process_ok
        && thread_ok && line_ok && messages_ok
}

/// The mathematical state of the store.
pub struct StoreView {
    pub connected: bool,
    pub next_id: u64,
    pub rows: Seq<RowView>,
    pub configs: Seq<(Seq<char>, Seq<char>)>,
}

/// The persistent store: an append-only record table plus a key/value
/// configuration table, held behind a connected/unconnected gate.
pub struct LogStore {
    connected: bool,
    next_id: u64,
    rows: Vec<DBMessage>,
    configs: Vec<(String, String)>,
}

/// The view of the configuration table: each pair as character
/// sequences, in stored order.
pub open spec fn configs_view(cfgs: Seq<(String, String)>) -> Seq<(Seq<char>, Seq<char>)> {
    Seq::new(cfgs.len(), |i: int| (cfgs[i].0@, cfgs[i].1@))
}

impl View for LogStore {
    type V = StoreView;

    closed spec fn view(&self) -> StoreView {
        StoreView {
            connected: self.connected,
            next_id: self.next_id,
            rows: self.rows.deep_view(),
            configs: configs_view(self.configs@),
        }
    }
}

/// Whether a configuration table holds `v` under `k`.
pub open spec fn cfg_has(cfgs: Seq<(Seq<char>, Seq<char>)>, k: Seq<char>, v: Seq<char>) -> bool {
    exists|i: int| 0 <= i < cfgs.len() && cfgs[i] == (k, v)
}

/// Whether a configuration table holds any entry under `k`.
pub open spec fn cfg_has_key(cfgs: Seq<(Seq<char>, Seq<char>)>, k: Seq<char>) -> bool {
    exists|i: int| 0 <= i < cfgs.len() && cfgs[i].0 == k
}

impl LogStore {
    /// The store's structural invariant: row identifiers strictly
    /// increase in stored order and stay below the next free
    /// identifier, and configuration keys strictly increase, so each
    /// key appears once.
    pub open spec fn wf(&self) -> bool {
        &&& self@.next_id >= 1
        &&& forall|i: int, j: int|
            0 <= i < j < self@.rows.len() ==> self@.rows[i].id < self@.rows[j].id
        &&& forall|i: int| 0 <= i < self@.rows.len() ==> #[trigger] self@.rows[i].id < self@.next_id
        &&& forall|i: int, j: int|
            0 <= i < j < self@.configs.len() ==> lex_lt(self@.configs[i].0, self@.configs[j].0)
    }

    /// A fresh store: unconnected and empty; the first assigned row
    /// identifier will be 1.
    pub fn new() -> (r: Self)
        ensures
            r.wf(),
            !r@.connected,
            r@.rows == Seq::<RowView>::empty(),
            r@.configs == Seq::<(Seq<char>, Seq<char>)>::empty(),
            r@.next_id == 1,
    {
        let r = LogStore { connected: false, next_id: 1, rows: Vec::new(), configs: Vec::new() };
        proof {
            assert(r@.rows =~= Seq::<RowView>::empty());
            assert(r@.configs =~= Seq::<(Seq<char>, Seq<char>)>::empty());
        }
        r
    }

    /// Whether the store has been connected.
    pub fn is_connected(&self) -> (r: bool)
        ensures
            r == self@.connected,
    {
        self.connected
    }

    /// The total number of stored rows.
    pub fn get_message_count(&self) -> (r: Result<usize, StoreError>)
        ensures
            r is Ok <==> self@.connected,
            r is Ok ==> r->Ok_0 == self@.rows.len(),
            r is Err ==> r->Err_0 == StoreError::NotConnected,
    {
        if !self.connected {
            return Err(StoreError::NotConnected);
        }
        Ok(self.rows.len())
    }

    /// Appends a record under a fresh identifier and returns that
    /// identifier. Fails when the store is not connected, or when the
    /// identifier space is exhausted.
    pub fn insert_message(&mut self, message: &MessageData) -> (r: Result<u64, StoreError>)
        requires
            old(self).wf(),
        ensures
            final(self).wf(),
            !old(self)@.connected ==> r is Err && r->Err_0 == StoreError::NotConnected
                && *final(self) == *old(self),
            old(self)@.connected && old(self)@.next_id == u64::MAX ==> r is Err && r->Err_0
                == StoreError::IdSpaceExhausted && *final(self) == *old(self),
            old(self)@.connected && old(self)@.next_id < u64::MAX ==> {
                &&& r is Ok
                &&& r->Ok_0 == old(self)@.next_id
                &&& final(self)@.rows == old(self)@.rows.push(
                    row_of(old(self)@.next_id, message@),
                )
                &&& final(self)@.next_id == old(self)@.next_id + 1
                &&& final(self)@.configs == old(self)@.configs
                &&& final(self)@.connected
            },
    {
        if !self.connected {
            return Err(StoreError::NotConnected);
        }
        if self.next_id == u64::MAX {
            return Err(StoreError::IdSpaceExhausted);
        }
        let id = self.next_id;
        let row = DBMessage {
            id,
            role: message.role.clone(),
            label: message.label.clone(),
            file: message.file.clone(),
            function: message.function.clone(),
            time: message.time,
            process_id: message.process_id,
            thread_id: message.thread_id,
            line: message.line,
            level: message.level,
            messages: clone_strings(&message.messages),
        };
        assert(row@ == row_of(id, message@));
        self.rows.push(row);
        self.next_id = id + 1;
        proof {
            assert(final(self)@.rows =~= old(self)@.rows.push(row_of(id, message@)));
            assert(final(self)@.configs =~= old(self)@.configs);
        }
        Ok(id)
    }

    /// The number of stored rows the filter matches.
    pub fn filter_messages_count(&self, config: &FilterConfig) -> (r: Result<usize, StoreError>)
        ensures
            r is Ok <==> self@.connected,
            r is Ok ==> r->Ok_0 == filtered_rows(self@.rows, *config).len(),
            r is Err ==> r->Err_0 == StoreError::NotConnected,
    {
        if !self.connected {
            return Err(StoreError::NotConnected);
        }
        let n = self.rows.len();
        let mut count: usize = 0;
        let mut i: usize = 0;
        proof {
            reveal(Seq::filter);
            assert(filtered_rows(self@.rows.take(0), *config).len() == 0);
        }
        while i < n
            invariant
                n == self@.rows.len(),
                0 <= i <= n,
                count == filtered_rows(self@.rows.take(i as int), *config).len(),
                count <= i,
            decreases n - i,
        {
            let m = eval_filter(config, &self.rows[i]);
            proof {
                let rows = self@.rows;
                let pred = |r: RowView| row_matches(*config, r);
                rows.take(i as int).lemma_filter_len_push(pred, rows[i as int]);
                assert(rows.take(i as int).push(rows[i as int]) =~= rows.take(i as int + 1));
                assert(self.rows@[i as int]@ == rows[i as int]);
            }
            if m {
                count += 1;
            }
            i += 1;
        }
        proof {
            assert(self@.rows.take(n as int) =~= self@.rows);
        }
        Ok(count)
    }

    /// Deletes every row the filter matches and returns how many were
    /// removed. With an empty filter this removes every row.
    pub fn delete_messages(&mut self, config: &FilterConfig) -> (r: Result<usize, StoreError>)
        requires
            old(self).wf(),
        ensures
            final(self).wf(),
            r is Ok <==> old(self)@.connected,
            r is Err ==> r->Err_0 == StoreError::NotConnected && *final(self) == *old(self),
            r is Ok ==> {
                &&& final(self)@.rows == unmatched_rows(old(self)@.rows, *config)
                &&& r->Ok_0 == filtered_rows(old(self)@.rows, *config).len()
                &&& r->Ok_0 + final(self)@.rows.len() == old(self)@.rows.len()
                &&& final(self)@.configs == old(self)@.configs
                &&& final(self)@.connected == old(self)@.connected
                &&& final(self)@.next_id == old(self)@.next_id
            },
    {
        if !self.connected {
            return Err(StoreError::NotConnected);
        }
        let n = self.rows.len();
        let mut kept: Vec<DBMessage> = Vec::new();
        let mut removed: usize = 0;
        let mut i: usize = 0;
        proof {
            reveal(Seq::filter);
            assert(filtered_rows(self@.rows.take(0), *config).len() == 0);
            assert(kept.deep_view() =~= unmatched_rows(self@.rows.take(0), *config));
        }
        while i < n
            invariant
                n == self@.rows.len(),
                0 <= i <= n,
                kept.deep_view() == unmatched_rows(self@.rows.take(i as int), *config),
                removed == filtered_rows(self@.rows.take(i as int), *config).len(),
                removed <= i,
            decreases n - i,
        {
            let rows_i = &self.rows[i];
            let m = eval_filter(config, rows_i);
            proof {
                let rows = self@.rows;
                let pred = |r: RowView| row_matches(*config, r);
                let npred = |r: RowView| !row_matches(*config, r);
                rows.take(i as int).lemma_filter_len_push(pred, rows[i as int]);
                rows.take(i as int).lemma_filter_push(rows[i as int], pred);
                rows.take(i as int).lemma_filter_push(rows[i as int], npred);
                assert(rows.take(i as int).push(rows[i as int]) =~= rows.take(i as int + 1));
                assert(self.rows@[i as int]@ == rows[i as int]);
            }
            if m {
                removed += 1;
            } else {
                let ghost before = kept.deep_view();
                kept.push(self.rows[i].clone());
                assert(kept.deep_view() =~= before.push(self@.rows[i as int]));
            }
            i += 1;
        }
        proof {
            assert(self@.rows.take(n as int) =~= self@.rows);
        }
        self.rows = kept;
        proof {
            let old_rows = old(self)@.rows;
            let c = *config;
            lemma_filter_keeps_id_order(old_rows, c, old(self)@.next_id);
            lemma_filter_partition_len(old_rows, c);
            assert(self@.configs == old(self)@.configs);
            assert forall|i: int, j: int|
                0 <= i < j < self@.configs.len() implies lex_lt(
                self@.configs[i].0,
                self@.configs[j].0,
            ) by {
                assert(lex_lt(old(self)@.configs[i].0, old(self)@.configs[j].0));
            }
        }
        Ok(removed)
    }
}

/// Filtering rows keeps their identifier order and bound.
proof fn lemma_filter_keeps_id_order(rows: Seq<RowView>, c: FilterConfig, bound: u64)
    requires
        forall|i: int, j: int| 0 <= i < j < rows.len() ==> rows[i].id < rows[j].id,
        forall|i: int| 0 <= i < rows.len() ==> #[trigger] rows[i].id < bound,
    ensures
        forall|i: int, j: int|
            0 <= i < j < unmatched_rows(rows, c).len() ==> unmatched_rows(rows, c)[i].id
                < unmatched_rows(rows, c)[j].id,
        forall|i: int|
            0 <= i < unmatched_rows(rows, c).len() ==> #[trigger] unmatched_rows(rows, c)[i].id
                < bound,
    decreases rows.len(),
{
    reveal(Seq::filter);
    let f = unmatched_rows(rows, c);
    if rows.len() == 0 {
    } else {
        let prefix = rows.drop_last();
        let last = rows.last();
        assert forall|i: int| 0 <= i < prefix.len() implies #[trigger] prefix[i].id < last.id by {
            assert(prefix[i] == rows[i]);
            assert(last == rows[rows.len() - 1]);
        }
        assert(last.id < bound) by {
            assert(last == rows[rows.len() - 1]);
        }
        lemma_filter_keeps_id_order(prefix, c, last.id);
        let fp = unmatched_rows(prefix, c);
        if !row_matches(c, last) {
            assert(f == fp.push(last));
        } else {
            assert(f == fp);
        }
    }
}

/// The rows in the requested direction: stored (ascending id) order,
/// or its reverse.
pub open spec fn ordered(s: Seq<RowView>, desc: bool) -> Seq<RowView> {
    if desc {
        s.reverse()
    } else {
        s
    }
}

/// One page of a result: `offset` rows are dropped from the front (a
/// negative offset drops none), then up to `limit` rows are taken (a
/// negative limit takes the whole rest).
pub open spec fn page(s: Seq<RowView>, limit: int, offset: int) -> Seq<RowView> {
    let off = if offset < 0 {
        0
    } else {
        offset
    };
    if off >= s.len() {
        Seq::empty()
    } else {
        let t = s.skip(off);
        if limit < 0 || limit > t.len() {
            t
        } else {
            t.take(limit)
        }
    }
}

impl LogStore {
    /// One page of the stored rows, ordered by `id` ascending or
    /// descending.
    pub fn get_messages(&self, limit: i32, offset: i32, desc: bool) -> (r: Result<
        Vec<DBMessage>,
        StoreError,
    >)
        ensures
            r is Ok <==> self@.connected,
            r is Err ==> r->Err_0 == StoreError::NotConnected,
            r is Ok ==> r->Ok_0.deep_view() == page(
                ordered(self@.rows, desc),
                limit as int,
                offset as int,
            ),
    {
        if !self.connected {
            return Err(StoreError::NotConnected);
        }
        let ghost target = page(ordered(self@.rows, desc), limit as int, offset as int);
        let n = self.rows.len();
        let off: usize = if offset < 0 {
            0
        } else {
            offset as usize
        };
        if off >= n {
            let empty_out: Vec<DBMessage> = Vec::new();
            proof {
                assert(ordered(self@.rows, desc).len() == n);
                assert(empty_out.deep_view() =~= target);
            }
            return Ok(empty_out);
        }
        let avail = n - off;
        let cnt: usize = if limit < 0 {
            avail
        } else if (limit as usize) > avail {
            avail
        } else {
            limit as usize
        };
        proof {
            let s = ordered(self@.rows, desc);
            assert(s.len() == n);
            assert(target == if (limit as int) < 0 || limit as int > s.skip(off as int).len() {
                s.skip(off as int)
            } else {
                s.skip(off as int).take(limit as int)
            });
            assert(target.len() == cnt);
            assert forall|t: int| 0 <= t < cnt implies target[t] == (if desc {
                self@.rows[n - 1 - off - t]
            } else {
                self@.rows[off + t]
            }) by {
                assert(target[t] == s.skip(off as int)[t]);
                assert(s.skip(off as int)[t] == s[off + t]);
                if desc {
                    assert(s[off + t] == self@.rows[n - 1 - (off + t)]);
                }
            }
        }
        let mut out: Vec<DBMessage> = Vec::new();
        let mut k: usize = 0;
        while k < cnt
            invariant
                n == self@.rows.len(),
                0 <= off < n,
                cnt <= n - off,
                0 <= k <= cnt,
                target.len() == cnt,
                forall|t: int|
                    0 <= t < cnt ==> target[t] == (if desc {
                        self@.rows[n - 1 - off - t]
                    } else {
                        self@.rows[off + t]
                    }),
                out@.len() == k,
                out.deep_view() == target.take(k as int),
            decreases cnt - k,
        {
            let idx: usize = if desc {
                n - 1 - off - k
            } else {
                off + k
            };
            let ghost prevseq = out@;
            let ghost before = out.deep_view();
            let row = self.rows[idx].clone();
            let ghost grow = row@;
            out.push(row);
            proof {
                assert(out@ == prevseq.push(out@[k as int]));
                assert forall|j: int| 0 <= j < k + 1 implies out.deep_view()[j] == target.take(
                    k as int + 1,
                )[j] by {
                    if j < k {
                        assert(out@[j] == prevseq[j]);
                        assert(out.deep_view()[j] == before[j]);
                    } else {
                        assert(out@[j]@ == grow);
                        assert(grow == self@.rows[idx as int]);
                        assert(target[j] == self@.rows[idx as int]);
                    }
                }
                assert(out.deep_view() =~= target.take(k as int + 1));
            }
            k += 1;
        }
        proof {
            assert(target.take(cnt as int) =~= target);
        }
        Ok(out)
    }
}

/// Non-strict order of two rows under a sort column: by the column's
/// value, with ties broken by `id`. String columns order
/// lexicographically by code point, numeric columns numerically.
pub open spec fn field_le(f: MessageField, a: RowView, b: RowView) -> bool {
    match f {
        MessageField::Id => a.id <= b.id,
        MessageField::Role => lex_lt(a.role, b.role) || (a.role == b.role && a.id <= b.id),
        MessageField::Label => lex_lt(a.label, b.label) || (a.label == b.label && a.id <= b.id),
        MessageField::File => lex_lt(a.file, b.file) || (a.file == b.file && a.id <= b.id),
        MessageField::Function => lex_lt(a.function, b.function) || (a.function == b.function
            && a.id <= b.id),
        MessageField::Time => a.time < b.time || (a.time == b.time && a.id <= b.id),
        MessageField::ProcessId => a.process_id < b.process_id || (a.process_id == b.process_id
            && a.id <= b.id),
        MessageField::ThreadId => a.thread_id < b.thread_id || (a.thread_id == b.thread_id && a.id
            <= b.id),
        MessageField::Line => a.line < b.line || (a.line == b.line && a.id <= b.id),
        MessageField::Level => a.level < b.level || (a.level == b.level && a.id <= b.id),
    }
}

/// The requested result order: the column order, or its reverse for a
/// descending sort.
pub open spec fn row_le(f: MessageField, desc: bool, a: RowView, b: RowView) -> bool {
    if desc {
        field_le(f, b, a)
    } else {
        field_le(f, a, b)
    }
}

/// The result order as a relation, for `sorted_by`.
pub open spec fn row_le_fn(f: MessageField, desc: bool) -> spec_fn(RowView, RowView) -> bool {
    |a: RowView, b: RowView| row_le(f, desc, a, b)
}

proof fn lemma_field_le_total(f: MessageField, a: RowView, b: RowView)
    ensures
        field_le(f, a, b) || field_le(f, b, a),
{
    match f {
        MessageField::Role => lemma_lex_trichotomy(a.role, b.role),
        MessageField::Label => lemma_lex_trichotomy(a.label, b.label),
        MessageField::File => lemma_lex_trichotomy(a.file, b.file),
        MessageField::Function => lemma_lex_trichotomy(a.function, b.function),
        _ => (),
    }
}

proof fn lemma_field_le_trans(f: MessageField, a: RowView, b: RowView, c: RowView)
    requires
        field_le(f, a, b),
        field_le(f, b, c),
    ensures
        field_le(f, a, c),
{
    match f {
        MessageField::Role => {
            if lex_lt(a.role, b.role) && lex_lt(b.role, c.role) {
                lemma_lex_trans(a.role, b.role, c.role);
            }
        },
        MessageField::Label => {
            if lex_lt(a.label, b.label) && lex_lt(b.label, c.label) {
                lemma_lex_trans(a.label, b.label, c.label);
            }
        },
        MessageField::File => {
            if lex_lt(a.file, b.file) && lex_lt(b.file, c.file) {
                lemma_lex_trans(a.file, b.file, c.file);
            }
        },
        MessageField::Function => {
            if lex_lt(a.function, b.function) && lex_lt(b.function, c.function) {
                lemma_lex_trans(a.function, b.function, c.function);
            }
        },
        _ => (),
    }
}

proof fn lemma_row_le_total(f: MessageField, desc: bool, a: RowView, b: RowView)
    ensures
        row_le(f, desc, a, b) || row_le(f, desc, b, a),
{
    lemma_field_le_total(f, a, b);
}

proof fn lemma_row_le_trans(f: MessageField, desc: bool, a: RowView, b: RowView, c: RowView)
    requires
        row_le(f, desc, a, b),
        row_le(f, desc, b, c),
    ensures
        row_le(f, desc, a, c),
{
    if desc {
        lemma_field_le_trans(f, c, b, a);
    } else {
        lemma_field_le_trans(f, a, b, c);
    }
}

/// Compares two rows in the requested result order.
fn row_le_exec(f: &MessageField, desc: bool, a: &DBMessage, b: &DBMessage) -> (r: bool)
    ensures
        r == row_le(*f, desc, a@, b@),
{
    let (x, y) = if desc {
        (b, a)
    } else {
        (a, b)
    };
    match f {
        MessageField::Id => x.id <= y.id,
        MessageField::Role => match str_compare(x.role.as_str(), y.role.as_str()) {
            StrOrder::Less => true,
            StrOrder::Equal => x.id <= y.id,
            StrOrder::Greater => false,
        },
        MessageField::Label => match str_compare(x.label.as_str(), y.label.as_str()) {
            StrOrder::Less => true,
            StrOrder::Equal => x.id <= y.id,
            StrOrder::Greater => false,
        },
        MessageField::File => match str_compare(x.file.as_str(), y.file.as_str()) {
            StrOrder::Less => true,
            StrOrder::Equal => x.id <= y.id,
            StrOrder::Greater => false,
        },
        MessageField::Function => match str_compare(x.function.as_str(), y.function.as_str()) {
            StrOrder::Less => true,
            StrOrder::Equal => x.id <= y.id,
            StrOrder::Greater => false,
        },
        MessageField::Time => x.time < y.time || (x.time == y.time && x.id <= y.id),
        MessageField::ProcessId => x.process_id < y.process_id || (x.process_id == y.process_id
            && x.id <= y.id),
        MessageField::ThreadId => x.thread_id < y.thread_id || (x.thread_id == y.thread_id && x.id
            <= y.id),
        MessageField::Line => x.line < y.line || (x.line == y.line && x.id <= y.id),
        MessageField::Level => x.level < y.level || (x.level == y.level && x.id <= y.id),
    }
}

/// Sorts the rows in the requested result order: the output is ordered
/// by `row_le` and holds exactly the input rows.
fn sort_rows(rows: Vec<DBMessage>, f: &MessageField, desc: bool) -> (r: Vec<DBMessage>)
    ensures
        sorted_by(r.deep_view(), row_le_fn(*f, desc)),
        r.deep_view().to_multiset() == rows.deep_view().to_multiset(),
{
    broadcast use vstd::seq_lib::group_to_multiset_ensures;

    let n = rows.len();
    let mut out: Vec<DBMessage> = Vec::new();
    let mut i: usize = 0;
    proof {
        assert(out.deep_view() =~= Seq::<RowView>::empty());
        assert(rows.deep_view().take(0) =~= Seq::<RowView>::empty());
        assert(out.deep_view().to_multiset() =~= rows.deep_view().take(0).to_multiset());
    }
    while i < n
        invariant
            n == rows@.len(),
            0 <= i <= n,
            out@.len() == i,
            sorted_by(out.deep_view(), row_le_fn(*f, desc)),
            out.deep_view().to_multiset() == rows.deep_view().take(i as int).to_multiset(),
        decreases n - i,
    {
        let x = rows[i].clone();
        let ghost gx = x@;
        let ghost od = out.deep_view();
        let m = out.len();
        let mut j: usize = 0;
        loop
            invariant_except_break
                0 <= j <= m,
                m == out@.len(),
                x@ == gx,
                forall|t: int| 0 <= t < j ==> row_le(*f, desc, #[trigger] od[t], gx),
                od == out.deep_view(),
            ensures
                0 <= j <= m,
                forall|t: int| 0 <= t < j ==> row_le(*f, desc, #[trigger] od[t], gx),
                j < m ==> !row_le(*f, desc, od[j as int], gx),
            decreases m - j,
        {
            if j == m {
                break ;
            }
            let oj = &out[j];
            proof {
                assert(oj@ == out@[j as int]@);
            }
            let le = row_le_exec(f, desc, oj, &x);
            proof {
                assert(od[j as int] == out@[j as int]@);
                assert(le == row_le(*f, desc, od[j as int], gx));
            }
            if !le {
                break ;
            }
            j += 1;
        }
        out.insert(j, x);
        proof {
            let nd = out.deep_view();
            od.insert_ensures(j as int, gx);
            assert forall|t: int| 0 <= t < nd.len() implies nd[t] == od.insert(j as int, gx)[t] by {
                if t < j {
                    assert(out@[t]@ == od[t]);
                } else if t == j {
                    assert(out@[t]@ == gx);
                } else {
                    assert(out@[t]@ == od[t - 1]);
                }
            }
            assert(nd =~= od.insert(j as int, gx));
            vstd::seq_lib::to_multiset_insert(od, j as int, gx);
            assert(rows.deep_view().take(i as int).push(gx) =~= rows.deep_view().take(i as int + 1));
            vstd::seq_lib::to_multiset_build(rows.deep_view().take(i as int), gx);
            assert(rows.deep_view().take(i as int).push(gx).to_multiset() == rows.deep_view().take(
                i as int,
            ).to_multiset().insert(gx));
            assert forall|p: int, q: int| 0 <= p < q < nd.len() implies row_le_fn(*f, desc)(
                nd[p],
                nd[q],
            ) by {
                if q < j {
                    assert(row_le_fn(*f, desc)(od[p], od[q]));
                } else if p < j && q == j {
                    assert(row_le(*f, desc, od[p], gx));
                } else if p < j && q > j {
                    assert(p < q - 1);
                    assert(row_le_fn(*f, desc)(od[p], od[q - 1]));
                } else if p == j {
                    assert(j < m);
                    lemma_row_le_total(*f, desc, od[j as int], gx);
                    assert(row_le(*f, desc, gx, od[j as int]));
                    if q - 1 > j {
                        assert(row_le_fn(*f, desc)(od[j as int], od[q - 1]));
                        lemma_row_le_trans(*f, desc, gx, od[j as int], od[q - 1]);
                    }
                } else {
                    assert(row_le_fn(*f, desc)(od[p - 1], od[q - 1]));
                }
            }
        }
        i += 1;
    }
    proof {
        assert(rows.deep_view().take(n as int) =~= rows.deep_view());
    }
    out
}

/// Extracts one page of an already ordered result.
fn paginate(v: Vec<DBMessage>, limit: i32, offset: i32) -> (r: Vec<DBMessage>)
    ensures
        r.deep_view() == page(v.deep_view(), limit as int, offset as int),
{
    let ghost target = page(v.deep_view(), limit as int, offset as int);
    let n = v.len();
    let off: usize = if offset < 0 {
        0
    } else {
        offset as usize
    };
    if off >= n {
        let empty_out: Vec<DBMessage> = Vec::new();
        proof {
            assert(empty_out.deep_view() =~= target);
        }
        return empty_out;
    }
    let avail = n - off;
    let cnt: usize = if limit < 0 {
        avail
    } else if (limit as usize) > avail {
        avail
    } else {
        limit as usize
    };
    proof {
        let s = v.deep_view();
        assert(target == if (limit as int) < 0 || limit as int > s.skip(off as int).len() {
            s.skip(off as int)
        } else {
            s.skip(off as int).take(limit as int)
        });
        assert(target.len() == cnt);
        assert forall|t: int| 0 <= t < cnt implies target[t] == v.deep_view()[off + t] by {
            assert(target[t] == s.skip(off as int)[t]);
        }
    }
    let mut out: Vec<DBMessage> = Vec::new();
    let mut k: usize = 0;
    while k < cnt
        invariant
            n == v@.len(),
            0 <= off < n,
            cnt <= n - off,
            0 <= k <= cnt,
            target.len() == cnt,
            forall|t: int| 0 <= t < cnt ==> #[trigger] target[t] == v.deep_view()[off + t],
            out@.len() == k,
            out.deep_view() == target.take(k as int),
        decreases cnt - k,
    {
        let idx: usize = off + k;
        let ghost prevseq = out@;
        let ghost before = out.deep_view();
        let row = v[idx].clone();
        let ghost grow = row@;
        out.push(row);
        proof {
            assert(out@ == prevseq.push(out@[k as int]));
            assert forall|j: int| 0 <= j < k + 1 implies out.deep_view()[j] == target.take(
                k as int + 1,
            )[j] by {
                if j < k {
                    assert(out@[j] == prevseq[j]);
                    assert(out.deep_view()[j] == before[j]);
                } else {
                    assert(out@[j]@ == grow);
                    assert(grow == v.deep_view()[idx as int]);
                    assert(target[j] == v.deep_view()[idx as int]);
                }
            }
            assert(out.deep_view() =~= target.take(k as int + 1));
        }
        k += 1;
    }
    proof {
        assert(target.take(cnt as int) =~= target);
    }
    out
}

/// Every row the filter keeps satisfies it.
proof fn lemma_filtered_rows_pred(rows: Seq<RowView>, c: FilterConfig)
    ensures
        forall|k: int|
            0 <= k < filtered_rows(rows, c).len() ==> row_matches(
                c,
                #[trigger] filtered_rows(rows, c)[k],
            ),
    decreases rows.len(),
{
    reveal(Seq::filter);
    if rows.len() > 0 {
        lemma_filtered_rows_pred(rows.drop_last(), c);
        let fp = filtered_rows(rows.drop_last(), c);
        let f = filtered_rows(rows, c);
        assert forall|k: int| 0 <= k < f.len() implies row_matches(c, f[k]) by {
            if row_matches(c, rows.last()) {
                assert(f == fp.push(rows.last()));
                if k < fp.len() {
                    assert(f[k] == fp[k]);
                }
            } else {
                assert(f == fp);
            }
        }
    }
}

proof fn lemma_page_props(gs: Seq<RowView>, filtered: Seq<RowView>, f: MessageField, desc: bool, limit: int, offset: int)
    requires
        sorted_by(gs, row_le_fn(f, desc)),
        gs.to_multiset() == filtered.to_multiset(),
    ensures
        sorted_by(page(gs, limit, offset), row_le_fn(f, desc)),
        forall|i: int|
            0 <= i < page(gs, limit, offset).len() ==> filtered.contains(
                #[trigger] page(gs, limit, offset)[i],
            ),
{
    broadcast use vstd::seq_lib::group_to_multiset_ensures;

    let pg = page(gs, limit, offset);
    let off = if offset < 0 {
        0
    } else {
        offset
    };
    if off >= gs.len() {
    } else {
        assert forall|i: int| 0 <= i < pg.len() implies pg[i] == gs[off + i] by {
            assert(pg[i] == gs.skip(off)[i]);
        }
        assert forall|p: int, q: int| 0 <= p < q < pg.len() implies row_le_fn(f, desc)(
            pg[p],
            pg[q],
        ) by {
            assert(pg[p] == gs[off + p]);
            assert(pg[q] == gs[off + q]);
        }
        assert forall|i: int| 0 <= i < pg.len() implies filtered.contains(pg[i]) by {
            assert(gs[off + i] == pg[i]);
            assert(gs.contains(pg[i]));
            assert(gs.to_multiset().count(pg[i]) > 0);
            assert(filtered.to_multiset().count(pg[i]) > 0);
        }
    }
}

impl LogStore {
    /// One page of the rows the filter matches, ordered by the named
    /// column (ties broken by `id`), ascending or descending.
    pub fn filter_messages(
        &self,
        config: &FilterConfig,
        order_by: &MessageField,
        limit: &i32,
        offset: &i32,
        desc: bool,
    ) -> (r: Result<Vec<DBMessage>, StoreError>)
        ensures
            r is Ok <==> self@.connected,
            r is Err ==> r->Err_0 == StoreError::NotConnected,
            r is Ok ==> exists|sorted: Seq<RowView>|
                {
                    &&& sorted.to_multiset() == filtered_rows(self@.rows, *config).to_multiset()
                    &&& sorted_by(sorted, row_le_fn(*order_by, desc))
                    &&& r->Ok_0.deep_view() == page(sorted, *limit as int, *offset as int)
                },
            r is Ok ==> sorted_by(r->Ok_0.deep_view(), row_le_fn(*order_by, desc)),
            r is Ok ==> forall|i: int|
                0 <= i < r->Ok_0.deep_view().len() ==> row_matches(
                    *config,
                    #[trigger] r->Ok_0.deep_view()[i],
                ),
    {
        if !self.connected {
            return Err(StoreError::NotConnected);
        }
        let n = self.rows.len();
        let mut matched: Vec<DBMessage> = Vec::new();
        let mut i: usize = 0;
        proof {
            reveal(Seq::filter);
            assert(matched.deep_view() =~= filtered_rows(self@.rows.take(0), *config));
        }
        while i < n
            invariant
                n == self@.rows.len(),
                0 <= i <= n,
                matched.deep_view() == filtered_rows(self@.rows.take(i as int), *config),
            decreases n - i,
        {
            let m = eval_filter(config, &self.rows[i]);
            proof {
                let rows = self@.rows;
                let pred = |r: RowView| row_matches(*config, r);
                rows.take(i as int).lemma_filter_push(rows[i as int], pred);
                assert(rows.take(i as int).push(rows[i as int]) =~= rows.take(i as int + 1));
                assert(self.rows@[i as int]@ == rows[i as int]);
            }
            if m {
                let ghost before = matched.deep_view();
                matched.push(self.rows[i].clone());
                assert(matched.deep_view() =~= before.push(self@.rows[i as int]));
            }
            i += 1;
        }
        proof {
            assert(self@.rows.take(n as int) =~= self@.rows);
        }
        let sorted_vec = sort_rows(matched, order_by, desc);
        let ghost gs = sorted_vec.deep_view();
        let out = paginate(sorted_vec, *limit, *offset);
        proof {
            assert(gs.to_multiset() == filtered_rows(self@.rows, *config).to_multiset());
            assert(sorted_by(gs, row_le_fn(*order_by, desc)));
            assert(out.deep_view() == page(gs, *limit as int, *offset as int));
            let filtered = filtered_rows(self@.rows, *config);
            lemma_page_props(gs, filtered, *order_by, desc, *limit as int, *offset as int);
            lemma_filtered_rows_pred(self@.rows, *config);
            assert forall|i: int| 0 <= i < out.deep_view().len() implies row_matches(
                *config,
                #[trigger] out.deep_view()[i],
            ) by {
                assert(filtered.contains(out.deep_view()[i]));
                let k = choose|k: int|
                    0 <= k < filtered.len() && filtered[k] == out.deep_view()[i];
                assert(row_matches(*config, filtered[k]));
            }
        }
        Ok(out)
    }
}

/// The distinct values of one column, each value once, in ascending
/// order, in the column's native type.
#[derive(Debug, PartialEq)]
pub enum DistinctValues {
    /// For `Id`, `Time`, `ProcessId` and `ThreadId`.
    Unsigned(Vec<u64>),
    /// For `Role`, `Label`, `File` and `Function`.
    Text(Vec<String>),
    /// For `Line` and `Level`.
    Signed(Vec<i32>),
}

/// The columns holding unsigned 64-bit values.
pub open spec fn is_u64_field(f: MessageField) -> bool {
    f is Id || f is Time || f is ProcessId || f is ThreadId
}

/// The columns holding strings.
pub open spec fn is_str_field(f: MessageField) -> bool {
    f is Role || f is Label || f is File || f is Function
}

/// The columns holding signed 32-bit values.
pub open spec fn is_i32_field(f: MessageField) -> bool {
    f is Line || f is Level
}

/// The unsigned 64-bit value a row holds in the named column.
pub open spec fn u64_field(f: MessageField, r: RowView) -> u64 {
    match f {
        MessageField::Id => r.id,
        MessageField::Time => r.time,
        MessageField::ProcessId => r.process_id,
        MessageField::ThreadId => r.thread_id,
        _ => 0,
    }
}

/// The string a row holds in the named column.
pub open spec fn str_field(f: MessageField, r: RowView) -> Seq<char> {
    match f {
        MessageField::Role => r.role,
        MessageField::Label => r.label,
        MessageField::File => r.file,
        MessageField::Function => r.function,
        _ => Seq::empty(),
    }
}

/// The signed 32-bit value a row holds in the named column.
pub open spec fn i32_field(f: MessageField, r: RowView) -> i32 {
    match f {
        MessageField::Line => r.line,
        MessageField::Level => r.level,
        _ => 0,
    }
}

/// Whether a list of strings holds the given character sequence.
pub open spec fn texts_contain(vs: Seq<Seq<char>>, s: Seq<char>) -> bool {
    exists|i: int| 0 <= i < vs.len() && vs[i] == s
}

/// Inserts `x` into a strictly ascending vector, keeping it strictly
/// ascending; a value already present is not duplicated.
fn insert_sorted_u64(v: &mut Vec<u64>, x: u64)
    requires
        forall|p: int, q: int| 0 <= p < q < old(v)@.len() ==> old(v)@[p] < old(v)@[q],
    ensures
        forall|p: int, q: int| 0 <= p < q < final(v)@.len() ==> final(v)@[p] < final(v)@[q],
        forall|y: u64| final(v)@.contains(y) <==> (old(v)@.contains(y) || y == x),
{
    let m = v.len();
    let mut j: usize = 0;
    loop
        invariant_except_break
            0 <= j <= m,
            m == v@.len(),
            v@ == old(v)@,
            forall|t: int| 0 <= t < j ==> v@[t] < x,
        ensures
            0 <= j <= m,
            v@ == old(v)@,
            forall|t: int| 0 <= t < j ==> v@[t] < x,
            j < m ==> v@[j as int] >= x,
        decreases m - j,
    {
        if j == m {
            break ;
        }
        if v[j] >= x {
            break ;
        }
        j += 1;
    }
    if j < m && v[j] == x {
        proof {
            assert(old(v)@.contains(x)) by {
                assert(old(v)@[j as int] == x);
            }
            assert forall|y: u64| v@.contains(y) implies (old(v)@.contains(y) || y == x) by {}
        }
        return ;
    }
    let ghost oldseq = v@;
    v.insert(j, x);
    proof {
        oldseq.insert_ensures(j as int, x);
        assert(v@ == oldseq.insert(j as int, x));
        assert forall|p: int, q: int| 0 <= p < q < v@.len() implies v@[p] < v@[q] by {
            if q < j {
            } else if p < j && q == j {
                assert(v@[p] == oldseq[p]);
            } else if p < j && q > j {
                assert(v@[p] == oldseq[p]);
                assert(v@[q] == oldseq[q - 1]);
                assert(oldseq[j as int] > x);
                if q - 1 > j {
                    assert(oldseq[j as int] < oldseq[q - 1]);
                }
            } else if p == j {
                assert(v@[q] == oldseq[q - 1]);
                assert(oldseq[j as int] > x);
                if q - 1 > j {
                    assert(oldseq[j as int] < oldseq[q - 1]);
                }
            } else {
                assert(v@[p] == oldseq[p - 1]);
                assert(v@[q] == oldseq[q - 1]);
            }
        }
        assert forall|y: u64| v@.contains(y) implies (oldseq.contains(y) || y == x) by {
            let idx = choose|idx: int| 0 <= idx < v@.len() && v@[idx] == y;
            if idx < j {
                assert(oldseq[idx] == y);
            } else if idx == j {
            } else {
                assert(oldseq[idx - 1] == y);
            }
        }
        assert forall|y: u64| (oldseq.contains(y) || y == x) implies v@.contains(y) by {
            if y == x {
                assert(v@[j as int] == y);
            } else {
                let idx = choose|idx: int| 0 <= idx < oldseq.len() && oldseq[idx] == y;
                if idx < j {
                    assert(v@[idx] == y);
                } else {
                    assert(v@[idx + 1] == y);
                }
            }
        }
    }
}

/// Inserts `x` into a strictly ascending vector of signed values.
fn insert_sorted_i32(v: &mut Vec<i32>, x: i32)
    requires
        forall|p: int, q: int| 0 <= p < q < old(v)@.len() ==> old(v)@[p] < old(v)@[q],
    ensures
        forall|p: int, q: int| 0 <= p < q < final(v)@.len() ==> final(v)@[p] < final(v)@[q],
        forall|y: i32| final(v)@.contains(y) <==> (old(v)@.contains(y) || y == x),
{
    let m = v.len();
    let mut j: usize = 0;
    loop
        invariant_except_break
            0 <= j <= m,
            m == v@.len(),
            v@ == old(v)@,
            forall|t: int| 0 <= t < j ==> v@[t] < x,
        ensures
            0 <= j <= m,
            v@ == old(v)@,
            forall|t: int| 0 <= t < j ==> v@[t] < x,
            j < m ==> v@[j as int] >= x,
        decreases m - j,
    {
        if j == m {
            break ;
        }
        if v[j] >= x {
            break ;
        }
        j += 1;
    }
    if j < m && v[j] == x {
        proof {
            assert(old(v)@.contains(x)) by {
                assert(old(v)@[j as int] == x);
            }
        }
        return ;
    }
    let ghost oldseq = v@;
    v.insert(j, x);
    proof {
        oldseq.insert_ensures(j as int, x);
        assert(v@ == oldseq.insert(j as int, x));
        assert forall|p: int, q: int| 0 <= p < q < v@.len() implies v@[p] < v@[q] by {
            if q < j {
            } else if p < j && q == j {
                assert(v@[p] == oldseq[p]);
            } else if p < j && q > j {
                assert(v@[p] == oldseq[p]);
                assert(v@[q] == oldseq[q - 1]);
                assert(oldseq[j as int] > x);
                if q - 1 > j {
                    assert(oldseq[j as int] < oldseq[q - 1]);
                }
            } else if p == j {
                assert(v@[q] == oldseq[q - 1]);
                assert(oldseq[j as int] > x);
                if q - 1 > j {
                    assert(oldseq[j as int] < oldseq[q - 1]);
                }
            } else {
                assert(v@[p] == oldseq[p - 1]);
                assert(v@[q] == oldseq[q - 1]);
            }
        }
        assert forall|y: i32| v@.contains(y) implies (oldseq.contains(y) || y == x) by {
            let idx = choose|idx: int| 0 <= idx < v@.len() && v@[idx] == y;
            if idx < j {
                assert(oldseq[idx] == y);
            } else if idx == j {
            } else {
                assert(oldseq[idx - 1] == y);
            }
        }
        assert forall|y: i32| (oldseq.contains(y) || y == x) implies v@.contains(y) by {
            if y == x {
                assert(v@[j as int] == y);
            } else {
                let idx = choose|idx: int| 0 <= idx < oldseq.len() && oldseq[idx] == y;
                if idx < j {
                    assert(v@[idx] == y);
                } else {
                    assert(v@[idx + 1] == y);
                }
            }
        }
    }
}

/// Inserts `x` into a vector of strings kept strictly ascending in the
/// lexicographic order.
fn insert_sorted_text(v: &mut Vec<String>, x: &String)
    requires
        forall|p: int, q: int|
            0 <= p < q < old(v).deep_view().len() ==> lex_lt(
                old(v).deep_view()[p],
                old(v).deep_view()[q],
            ),
    ensures
        forall|p: int, q: int|
            0 <= p < q < final(v).deep_view().len() ==> lex_lt(
                final(v).deep_view()[p],
                final(v).deep_view()[q],
            ),
        forall|s: Seq<char>|
            texts_contain(final(v).deep_view(), s) <==> (texts_contain(old(v).deep_view(), s) || s
                == x@),
{
    let ghost odv = v.deep_view();
    let m = v.len();
    let mut j: usize = 0;
    let mut found = false;
    loop
        invariant_except_break
            0 <= j <= m,
            m == v@.len(),
            v@ == old(v)@,
            odv == v.deep_view(),
            !found,
            forall|t: int| 0 <= t < j ==> lex_lt(#[trigger] odv[t], x@),
        ensures
            0 <= j <= m,
            v@ == old(v)@,
            odv == v.deep_view(),
            forall|t: int| 0 <= t < j ==> lex_lt(#[trigger] odv[t], x@),
            found ==> j < m && odv[j as int] == x@,
            !found && j < m ==> lex_lt(x@, odv[j as int]),
        decreases m - j,
    {
        if j == m {
            break ;
        }
        let c = str_compare(v[j].as_str(), x.as_str());
        proof {
            assert(v.deep_view()[j as int] == v@[j as int]@);
        }
        match c {
            StrOrder::Less => {
                j += 1;
            },
            StrOrder::Equal => {
                found = true;
                break ;
            },
            StrOrder::Greater => {
                break ;
            },
        }
    }
    if found {
        proof {
            assert(texts_contain(old(v).deep_view(), x@)) by {
                assert(old(v).deep_view()[j as int] == x@);
            }
        }
        return ;
    }
    let ghost oldseq = v@;
    v.insert(j, x.clone());
    proof {
        oldseq.insert_ensures(j as int, *x);
        assert(v@ == oldseq.insert(j as int, *x));
        let ndv = v.deep_view();
        assert forall|t: int| 0 <= t < ndv.len() implies ndv[t] == odv.insert(j as int, x@)[t] by {
            odv.insert_ensures(j as int, x@);
            if t < j {
                assert(v@[t] == oldseq[t]);
            } else if t == j {
                assert(v@[t] == *x);
            } else {
                assert(v@[t] == oldseq[t - 1]);
            }
        }
        odv.insert_ensures(j as int, x@);
        assert(ndv =~= odv.insert(j as int, x@));
        assert forall|p: int, q: int| 0 <= p < q < ndv.len() implies lex_lt(ndv[p], ndv[q]) by {
            if q < j {
            } else if p < j && q == j {
                assert(ndv[p] == odv[p]);
            } else if p < j && q > j {
                assert(ndv[p] == odv[p]);
                assert(ndv[q] == odv[q - 1]);
                assert(lex_lt(x@, odv[j as int]));
                if q - 1 > j {
                    assert(lex_lt(odv[j as int], odv[q - 1]));
                    lemma_lex_trans(odv[p], odv[j as int], odv[q - 1]);
                    assert(lex_lt(odv[p], odv[j as int]));
                } else {
                    assert(lex_lt(odv[p], odv[j as int]));
                }
            } else if p == j {
                assert(ndv[q] == odv[q - 1]);
                assert(lex_lt(x@, odv[j as int]));
                if q - 1 > j {
                    assert(lex_lt(odv[j as int], odv[q - 1]));
                    lemma_lex_trans(x@, odv[j as int], odv[q - 1]);
                }
            } else {
                assert(ndv[p] == odv[p - 1]);
                assert(ndv[q] == odv[q - 1]);
            }
        }
        assert forall|s: Seq<char>| texts_contain(ndv, s) implies (texts_contain(odv, s) || s
            == x@) by {
            let idx = choose|idx: int| 0 <= idx < ndv.len() && ndv[idx] == s;
            if idx < j {
                assert(odv[idx] == s);
            } else if idx == j {
            } else {
                assert(odv[idx - 1] == s);
            }
        }
        assert forall|s: Seq<char>| (texts_contain(odv, s) || s == x@) implies texts_contain(
            ndv,
            s,
        ) by {
            if s == x@ {
                assert(ndv[j as int] == s);
            } else {
                let idx = choose|idx: int| 0 <= idx < odv.len() && odv[idx] == s;
                if idx < j {
                    assert(ndv[idx] == s);
                } else {
                    assert(ndv[idx + 1] == s);
                }
            }
        }
    }
}

/// Reads the unsigned 64-bit column the field names.
fn u64_field_exec(f: &MessageField, m: &DBMessage) -> (r: u64)
    requires
        is_u64_field(*f),
    ensures
        r == u64_field(*f, m@),
{
    match f {
        MessageField::Id => m.id,
        MessageField::Time => m.time,
        MessageField::ProcessId => m.process_id,
        MessageField::ThreadId => m.thread_id,
        _ => vstd::pervasive::unreached(),
    }
}

/// Reads the signed 32-bit column the field names.
fn i32_field_exec(f: &MessageField, m: &DBMessage) -> (r: i32)
    requires
        is_i32_field(*f),
    ensures
        r == i32_field(*f, m@),
{
    match f {
        MessageField::Line => m.line,
        MessageField::Level => m.level,
        _ => vstd::pervasive::unreached(),
    }
}

/// Clones the string column the field names.
fn str_field_exec(f: &MessageField, m: &DBMessage) -> (r: String)
    requires
        is_str_field(*f),
    ensures
        r@ == str_field(*f, m@),
{
    match f {
        MessageField::Role => m.role.clone(),
        MessageField::Label => m.label.clone(),
        MessageField::File => m.file.clone(),
        MessageField::Function => m.function.clone(),
        _ => vstd::pervasive::unreached(),
    }
}

impl LogStore {
    /// The sorted set of values present in the named column: each
    /// value once, ascending, in the column's native type.
    pub fn get_distinct(&self, field: &MessageField) -> (r: Result<DistinctValues, StoreError>)
        ensures
            r is Ok <==> self@.connected,
            r is Err ==> r->Err_0 == StoreError::NotConnected,
            r is Ok && is_u64_field(*field) ==> {
                &&& r->Ok_0 is Unsigned
                &&& forall|p: int, q: int|
                    0 <= p < q < r->Ok_0->Unsigned_0@.len() ==> r->Ok_0->Unsigned_0@[p] < r
                        ->Ok_0->Unsigned_0@[q]
                &&& forall|y: u64|
                    r->Ok_0->Unsigned_0@.contains(y) <==> exists|k: int|
                        0 <= k < self@.rows.len() && u64_field(*field, #[trigger] self@.rows[k])
                            == y
            },
            r is Ok && is_str_field(*field) ==> {
                &&& r->Ok_0 is Text
                &&& forall|p: int, q: int|
                    0 <= p < q < r->Ok_0->Text_0.deep_view().len() ==> lex_lt(
                        r->Ok_0->Text_0.deep_view()[p],
                        r->Ok_0->Text_0.deep_view()[q],
                    )
                &&& forall|s: Seq<char>|
                    texts_contain(r->Ok_0->Text_0.deep_view(), s) <==> exists|k: int|
                        0 <= k < self@.rows.len() && str_field(*field, #[trigger] self@.rows[k])
                            == s
            },
            r is Ok && is_i32_field(*field) ==> {
                &&& r->Ok_0 is Signed
                &&& forall|p: int, q: int|
                    0 <= p < q < r->Ok_0->Signed_0@.len() ==> r->Ok_0->Signed_0@[p] < r
                        ->Ok_0->Signed_0@[q]
                &&& forall|y: i32|
                    r->Ok_0->Signed_0@.contains(y) <==> exists|k: int|
                        0 <= k < self@.rows.len() && i32_field(*field, #[trigger] self@.rows[k])
                            == y
            },
    {
        if !self.connected {
            return Err(StoreError::NotConnected);
        }
        let n = self.rows.len();
        match field {
            MessageField::Id | MessageField::Time | MessageField::ProcessId
            | MessageField::ThreadId => {
                let mut out: Vec<u64> = Vec::new();
                let mut i: usize = 0;
                while i < n
                    invariant
                        is_u64_field(*field),
                        n == self@.rows.len(),
                        0 <= i <= n,
                        forall|p: int, q: int| 0 <= p < q < out@.len() ==> out@[p] < out@[q],
                        forall|y: u64|
                            out@.contains(y) <==> exists|k: int|
                                0 <= k < i && u64_field(*field, #[trigger] self@.rows[k]) == y,
                    decreases n - i,
                {
                    let val = u64_field_exec(field, &self.rows[i]);
                    proof {
                        assert(self.rows@[i as int]@ == self@.rows[i as int]);
                    }
                    insert_sorted_u64(&mut out, val);
                    i += 1;
                }
                Ok(DistinctValues::Unsigned(out))
            },
            MessageField::Role | MessageField::Label | MessageField::File
            | MessageField::Function => {
                let mut out: Vec<String> = Vec::new();
                let mut i: usize = 0;
                proof {
                    assert(out.deep_view() =~= Seq::<Seq<char>>::empty());
                }
                while i < n
                    invariant
                        is_str_field(*field),
                        n == self@.rows.len(),
                        0 <= i <= n,
                        forall|p: int, q: int|
                            0 <= p < q < out.deep_view().len() ==> lex_lt(
                                out.deep_view()[p],
                                out.deep_view()[q],
                            ),
                        forall|s: Seq<char>|
                            texts_contain(out.deep_view(), s) <==> exists|k: int|
                                0 <= k < i && str_field(*field, #[trigger] self@.rows[k]) == s,
                    decreases n - i,
                {
                    let val = str_field_exec(field, &self.rows[i]);
                    proof {
                        assert(self.rows@[i as int]@ == self@.rows[i as int]);
                    }
                    insert_sorted_text(&mut out, &val);
                    i += 1;
                }
                Ok(DistinctValues::Text(out))
            },
            MessageField::Line | MessageField::Level => {
                let mut out: Vec<i32> = Vec::new();
                let mut i: usize = 0;
                while i < n
                    invariant
                        is_i32_field(*field),
                        n == self@.rows.len(),
                        0 <= i <= n,
                        forall|p: int, q: int| 0 <= p < q < out@.len() ==> out@[p] < out@[q],
                        forall|y: i32|
                            out@.contains(y) <==> exists|k: int|
                                0 <= k < i && i32_field(*field, #[trigger] self@.rows[k]) == y,
                    decreases n - i,
                {
                    let val = i32_field_exec(field, &self.rows[i]);
                    proof {
                        assert(self.rows@[i as int]@ == self@.rows[i as int]);
                    }
                    insert_sorted_i32(&mut out, val);
                    i += 1;
                }
                Ok(DistinctValues::Signed(out))
            },
        }
    }
}

impl LogStore {
    /// Finds the key's position in the sorted configuration table:
    /// either its index, or the index where it would be inserted.
    fn config_pos(&self, key: &str) -> (r: (usize, bool))
        requires
            self.wf(),
        ensures
            r.0 <= self@.configs.len(),
            r.1 ==> r.0 < self@.configs.len() && self@.configs[r.0 as int].0 == key@,
            !r.1 ==> {
                &&& !cfg_has_key(self@.configs, key@)
                &&& forall|t: int| 0 <= t < r.0 ==> lex_lt(#[trigger] self@.configs[t].0, key@)
                &&& r.0 < self@.configs.len() ==> lex_lt(key@, self@.configs[r.0 as int].0)
            },
    {
        let m = self.configs.len();
        let mut j: usize = 0;
        let mut found = false;
        loop
            invariant_except_break
                0 <= j <= m,
                m == self@.configs.len(),
                self.wf(),
                !found,
                forall|t: int| 0 <= t < j ==> lex_lt(#[trigger] self@.configs[t].0, key@),
            ensures
                0 <= j <= m,
                m == self@.configs.len(),
                self.wf(),
                forall|t: int| 0 <= t < j ==> lex_lt(#[trigger] self@.configs[t].0, key@),
                found ==> j < m && self@.configs[j as int].0 == key@,
                !found && j < m ==> lex_lt(key@, self@.configs[j as int].0),
            decreases m - j,
        {
            if j == m {
                break ;
            }
            let c = str_compare(self.configs[j].0.as_str(), key);
            proof {
                assert(self@.configs[j as int].0 == self.configs@[j as int].0@);
            }
            match c {
                StrOrder::Less => {
                    j += 1;
                },
                StrOrder::Equal => {
                    found = true;
                    break ;
                },
                StrOrder::Greater => {
                    break ;
                },
            }
        }
        proof {
            if !found {
                assert forall|t: int|
                    0 <= t < self@.configs.len() implies self@.configs[t].0 != key@ by {
                    if t < j {
                        lemma_lex_trichotomy(self@.configs[t].0, key@);
                    } else if t == j {
                        lemma_lex_trichotomy(key@, self@.configs[t].0);
                    } else {
                        assert(lex_lt(key@, self@.configs[j as int].0));
                        assert(lex_lt(self@.configs[j as int].0, self@.configs[t].0));
                        lemma_lex_trans(key@, self@.configs[j as int].0, self@.configs[t].0);
                        lemma_lex_trichotomy(key@, self@.configs[t].0);
                    }
                }
            }
        }
        (j, found)
    }

    /// Inserts a new key at its sorted position; the key must be
    /// absent.
    fn insert_config_at(&mut self, pos: usize, key: &str, value: &str)
        requires
            old(self).wf(),
            pos <= old(self)@.configs.len(),
            !cfg_has_key(old(self)@.configs, key@),
            forall|t: int| 0 <= t < pos ==> lex_lt(#[trigger] old(self)@.configs[t].0, key@),
            pos < old(self)@.configs.len() ==> lex_lt(key@, old(self)@.configs[pos as int].0),
        ensures
            final(self).wf(),
            final(self)@.rows == old(self)@.rows,
            final(self)@.next_id == old(self)@.next_id,
            final(self)@.connected == old(self)@.connected,
            forall|k2: Seq<char>, v2: Seq<char>|
                cfg_has(final(self)@.configs, k2, v2) <==> (cfg_has(old(self)@.configs, k2, v2)
                    || (k2 == key@ && v2 == value@)),
    {
        let ghost ocv = self@.configs;
        let ghost oldseq = self.configs@;
        let pair = (key.to_owned(), value.to_owned());
        let ghost gpair = pair;
        self.configs.insert(pos, pair);
        proof {
            oldseq.insert_ensures(pos as int, gpair);
            assert(self.configs@ == oldseq.insert(pos as int, gpair));
            let ncv = self@.configs;
            assert forall|t: int| 0 <= t < ncv.len() implies ncv[t] == ocv.insert(
                pos as int,
                (key@, value@),
            )[t] by {
                ocv.insert_ensures(pos as int, (key@, value@));
                if t < pos {
                    assert(self.configs@[t] == oldseq[t]);
                } else if t == pos {
                    assert(self.configs@[t] == gpair);
                } else {
                    assert(self.configs@[t] == oldseq[t - 1]);
                }
            }
            ocv.insert_ensures(pos as int, (key@, value@));
            assert(ncv =~= ocv.insert(pos as int, (key@, value@)));
            assert forall|p: int, q: int| 0 <= p < q < ncv.len() implies lex_lt(
                ncv[p].0,
                ncv[q].0,
            ) by {
                if q < pos {
                } else if p < pos && q == pos {
                    assert(ncv[p].0 == ocv[p].0);
                } else if p < pos && q > pos {
                    assert(ncv[p].0 == ocv[p].0);
                    assert(ncv[q].0 == ocv[q - 1].0);
                    if q - 1 > pos {
                        assert(lex_lt(key@, ocv[pos as int].0));
                        assert(lex_lt(ocv[pos as int].0, ocv[q - 1].0));
                        assert(lex_lt(ocv[p].0, ocv[q - 1].0));
                    } else {
                        assert(lex_lt(ocv[p].0, key@));
                    }
                } else if p == pos {
                    assert(ncv[q].0 == ocv[q - 1].0);
                    assert(lex_lt(key@, ocv[pos as int].0));
                    if q - 1 > pos {
                        assert(lex_lt(ocv[pos as int].0, ocv[q - 1].0));
                        lemma_lex_trans(key@, ocv[pos as int].0, ocv[q - 1].0);
                    }
                } else {
                    assert(ncv[p].0 == ocv[p - 1].0);
                    assert(ncv[q].0 == ocv[q - 1].0);
                }
            }
            assert forall|k2: Seq<char>, v2: Seq<char>| cfg_has(ncv, k2, v2) implies (cfg_has(
                ocv,
                k2,
                v2,
            ) || (k2 == key@ && v2 == value@)) by {
                let idx = choose|idx: int| 0 <= idx < ncv.len() && ncv[idx] == (k2, v2);
                if idx < pos {
                    assert(ocv[idx] == (k2, v2));
                } else if idx == pos {
                } else {
                    assert(ocv[idx - 1] == (k2, v2));
                }
            }
            assert forall|k2: Seq<char>, v2: Seq<char>|
                (cfg_has(ocv, k2, v2) || (k2 == key@ && v2 == value@)) implies cfg_has(
                ncv,
                k2,
                v2,
            ) by {
                if k2 == key@ && v2 == value@ {
                    assert(ncv[pos as int] == (k2, v2));
                } else {
                    let idx = choose|idx: int| 0 <= idx < ocv.len() && ocv[idx] == (k2, v2);
                    if idx < pos {
                        assert(ncv[idx] == (k2, v2));
                    } else {
                        assert(ncv[idx + 1] == (k2, v2));
                    }
                }
            }
            assert(final(self)@.rows =~= old(self)@.rows);
        }
    }

    /// Stores `value` under `key`, inserting the key or replacing its
    /// previous value.
    pub fn set_config(&mut self, key: &str, value: &str) -> (r: Result<(), StoreError>)
        requires
            old(self).wf(),
        ensures
            final(self).wf(),
            r is Ok <==> old(self)@.connected,
            r is Err ==> r->Err_0 == StoreError::NotConnected && *final(self) == *old(self),
            r is Ok ==> {
                &&& final(self)@.rows == old(self)@.rows
                &&& final(self)@.next_id == old(self)@.next_id
                &&& final(self)@.connected == old(self)@.connected
                &&& forall|k2: Seq<char>, v2: Seq<char>|
                    cfg_has(final(self)@.configs, k2, v2) <==> (if k2 == key@ {
                        v2 == value@
                    } else {
                        cfg_has(old(self)@.configs, k2, v2)
                    })
            },
    {
        if !self.connected {
            return Err(StoreError::NotConnected);
        }
        let (pos, found) = self.config_pos(key);
        if found {
            let ghost ocv = self@.configs;
            let ghost oldseq = self.configs@;
            let elem = vstd::std_specs::vec::vec_index_mut(&mut self.configs, pos);
            elem.1 = value.to_owned();
            proof {
                let ncv = self@.configs;
                assert(self.configs@.len() == oldseq.len());
                assert(self.configs@[pos as int].0 == oldseq[pos as int].0);
                assert(self.configs@[pos as int].1@ == value@);
                assert(oldseq[pos as int].0@ == key@);
                assert forall|t: int| 0 <= t < ncv.len() implies ncv[t] == (if t == pos {
                    (key@, value@)
                } else {
                    ocv[t]
                }) by {
                    if t != pos {
                        assert(self.configs@[t] == oldseq[t]);
                    }
                }
                assert forall|p: int, q: int| 0 <= p < q < ncv.len() implies lex_lt(
                    ncv[p].0,
                    ncv[q].0,
                ) by {
                    assert(ncv[p].0 == ocv[p].0);
                    assert(ncv[q].0 == ocv[q].0);
                }
                assert forall|k2: Seq<char>, v2: Seq<char>| cfg_has(ncv, k2, v2) implies (if k2
                    == key@ {
                    v2 == value@
                } else {
                    cfg_has(ocv, k2, v2)
                }) by {
                    let idx = choose|idx: int| 0 <= idx < ncv.len() && ncv[idx] == (k2, v2);
                    if idx == pos {
                    } else {
                        assert(ocv[idx] == (k2, v2));
                        if k2 == key@ {
                            assert(ocv[idx].0 == ocv[pos as int].0);
                            if idx < pos {
                                lemma_lex_trichotomy(ocv[idx].0, ocv[pos as int].0);
                            } else {
                                lemma_lex_trichotomy(ocv[pos as int].0, ocv[idx].0);
                            }
                        }
                    }
                }
                assert forall|k2: Seq<char>, v2: Seq<char>|
                    (if k2 == key@ {
                        v2 == value@
                    } else {
                        cfg_has(ocv, k2, v2)
                    }) implies cfg_has(ncv, k2, v2) by {
                    if k2 == key@ {
                        assert(ncv[pos as int] == (k2, v2));
                    } else {
                        let idx = choose|idx: int| 0 <= idx < ocv.len() && ocv[idx] == (k2, v2);
                        assert(idx != pos);
                        assert(ncv[idx] == (k2, v2));
                    }
                }
                assert(final(self)@.rows =~= old(self)@.rows);
            }
            Ok(())
        } else {
            self.insert_config_at(pos, key, value);
            Ok(())
        }
    }

    /// The value stored under `key`, if any.
    pub fn get_config(&self, key: &str) -> (r: Result<Option<String>, StoreError>)
        requires
            self.wf(),
        ensures
            r is Ok <==> self@.connected,
            r is Err ==> r->Err_0 == StoreError::NotConnected,
            r is Ok ==> {
                &&& r->Ok_0 is Some <==> cfg_has_key(self@.configs, key@)
                &&& r->Ok_0 is Some ==> cfg_has(self@.configs, key@, r->Ok_0->0@)
            },
    {
        if !self.connected {
            return Err(StoreError::NotConnected);
        }
        let (pos, found) = self.config_pos(key);
        if found {
            let v = self.configs[pos].1.clone();
            proof {
                assert(self@.configs[pos as int] == (key@, v@));
                assert(cfg_has_key(self@.configs, key@));
            }
            Ok(Some(v))
        } else {
            Ok(None)
        }
    }

    /// Every configuration entry, in ascending key order.
    pub fn get_all_configs(&self) -> (r: Result<Vec<(String, String)>, StoreError>)
        requires
            self.wf(),
        ensures
            r is Ok <==> self@.connected,
            r is Err ==> r->Err_0 == StoreError::NotConnected,
            r is Ok ==> configs_view(r->Ok_0@) == self@.configs,
    {
        if !self.connected {
            return Err(StoreError::NotConnected);
        }
        let n = self.configs.len();
        let mut out: Vec<(String, String)> = Vec::new();
        let mut i: usize = 0;
        proof {
            assert(configs_view(out@) =~= self@.configs.take(0));
        }
        while i < n
            invariant
                n == self.configs@.len(),
                0 <= i <= n,
                out@.len() == i,
                configs_view(out@) == self@.configs.take(i as int),
            decreases n - i,
        {
            let ghost prevseq = out@;
            let k = self.configs[i].0.clone();
            let v = self.configs[i].1.clone();
            out.push((k, v));
            proof {
                assert forall|t: int| 0 <= t < i + 1 implies configs_view(out@)[t]
                    == self@.configs.take(i as int + 1)[t] by {
                    if t < i {
                        assert(out@[t] == prevseq[t]);
                        assert(configs_view(prevseq)[t] == self@.configs.take(i as int)[t]);
                    } else {
                        assert(out@[t] == (k, v));
                        assert(self@.configs[t] == (self.configs@[t].0@, self.configs@[t].1@));
                    }
                }
                assert(configs_view(out@) =~= self@.configs.take(i as int + 1));
            }
            i += 1;
        }
        proof {
            assert(self@.configs.take(n as int) =~= self@.configs);
        }
        Ok(out)
    }

    /// Connects the store, creating its state on first use and seeding
    /// the schema version entry; connecting an already connected store
    /// changes nothing.
    pub fn connect(&mut self, path: &str) -> (r: Result<(), StoreError>)
        requires
            old(self).wf(),
        ensures
            final(self).wf(),
            r is Ok,
            final(self)@.connected,
            old(self)@.connected ==> *final(self) == *old(self),
            !old(self)@.connected ==> {
                &&& final(self)@.rows == old(self)@.rows
                &&& final(self)@.next_id == old(self)@.next_id
                &&& (cfg_has_key(old(self)@.configs, "version"@) ==> final(self)@.configs == old(
                    self,
                )@.configs)
                &&& (!cfg_has_key(old(self)@.configs, "version"@) ==> (forall|
                    k2: Seq<char>,
                    v2: Seq<char>,
                |
                    cfg_has(final(self)@.configs, k2, v2) <==> (cfg_has(old(self)@.configs, k2, v2)
                        || (k2 == "version"@ && v2 == "1.0.0"@))))
            },
    {
        if self.connected {
            return Ok(());
        }
        self.connected = true;
        proof {
            assert(self@.rows == old(self)@.rows);
            assert(self@.configs == old(self)@.configs);
            assert(self@.next_id == old(self)@.next_id);
            assert(self.wf());
        }
        let (pos, found) = self.config_pos("version");
        if !found {
            self.insert_config_at(pos, "version", "1.0.0");
        }
        Ok(())
    }
}

/// Law: an empty filter matches every stored row, so a filtered count
/// equals the total count and a filtered fetch sees the whole table.
pub proof fn lemma_empty_filter_matches_all(c: FilterConfig, rows: Seq<RowView>)
    requires
        config_is_empty(c),
    ensures
        filtered_rows(rows, c) == rows,
        filtered_rows(rows, c).len() == rows.len(),
        unmatched_rows(rows, c).len() == 0,
    decreases rows.len(),
{
    reveal(Seq::filter);
    if rows.len() > 0 {
        lemma_empty_filter_matches_all(c, rows.drop_last());
        assert(row_matches(c, rows.last()));
        assert(filtered_rows(rows, c) =~= rows);
    } else {
        assert(filtered_rows(rows, c) =~= rows);
    }
}

/// Law: deleting with a filter that matches no row removes nothing and
/// reports zero; deleting with an empty filter removes every row and
/// reports the prior count.
pub proof fn lemma_delete_counts(c: FilterConfig, rows: Seq<RowView>)
    ensures
        (forall|i: int| 0 <= i < rows.len() ==> !row_matches(c, #[trigger] rows[i])) ==> {
            &&& unmatched_rows(rows, c) == rows
            &&& filtered_rows(rows, c).len() == 0
        },
        config_is_empty(c) ==> {
            &&& unmatched_rows(rows, c).len() == 0
            &&& filtered_rows(rows, c).len() == rows.len()
        },
    decreases rows.len(),
{
    reveal(Seq::filter);
    if config_is_empty(c) {
        lemma_empty_filter_matches_all(c, rows);
    }
    if forall|i: int| 0 <= i < rows.len() ==> !row_matches(c, #[trigger] rows[i]) {
        if rows.len() > 0 {
            let prefix = rows.drop_last();
            assert(forall|i: int|
                0 <= i < prefix.len() ==> !row_matches(c, #[trigger] prefix[i])) by {
                assert(forall|i: int| 0 <= i < prefix.len() ==> prefix[i] == #[trigger] rows[i]);
            }
            lemma_delete_counts(c, prefix);
            assert(!row_matches(c, rows.last()));
            assert(unmatched_rows(rows, c) =~= rows);
        } else {
            assert(unmatched_rows(rows, c) =~= rows);
        }
    }
}

/// Law: after an insert, a full fetch ascending by `id` returns the new
/// record last, and a full fetch descending by `id` returns it first.
pub proof fn lemma_inserted_row_position(rows: Seq<RowView>, r: RowView)
    ensures
        page(ordered(rows.push(r), false), -1, 0) == rows.push(r),
        page(ordered(rows.push(r), false), -1, 0).len() == rows.len() + 1,
        page(ordered(rows.push(r), false), -1, 0).last() == r,
        page(ordered(rows.push(r), true), -1, 0).len() == rows.len() + 1,
        page(ordered(rows.push(r), true), -1, 0).first() == r,
{
    let s = rows.push(r);
    assert(s.skip(0) =~= s);
    assert(s.reverse().skip(0) =~= s.reverse());
    assert(page(ordered(s, false), -1, 0) == s);
    assert(s.last() == r);
    assert(s.reverse().len() == s.len());
    assert(s.reverse()[0] == s[s.len() - 1]);
}

/// The matched and unmatched rows together account for every row.
pub proof fn lemma_filter_partition_len(rows: Seq<RowView>, c: FilterConfig)
    ensures
        filtered_rows(rows, c).len() + unmatched_rows(rows, c).len() == rows.len(),
    decreases rows.len(),
{
    reveal(Seq::filter);
    if rows.len() > 0 {
        lemma_filter_partition_len(rows.drop_last(), c);
        let pred = |r: RowView| row_matches(c, r);
        let npred = |r: RowView| !row_matches(c, r);
        rows.drop_last().lemma_filter_len_push(pred, rows.last());
        rows.drop_last().lemma_filter_len_push(npred, rows.last());
        assert(rows.drop_last().push(rows.last()) =~= rows);
    }
}

} // verus!
