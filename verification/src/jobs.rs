//! Importing work orders from a MySQL dump of the job table.

use vstd::prelude::*;
use vstd::string::{StringExecFns, StringSliceAdditionalSpecFns};
use vstd::utf8::encode_utf8;
use crate::bytes::{eq_ci, eq_ignore_case, find_ci, spec_find_ci};
use crate::order::{clean_order_no, order_no_text, MetaModel, Order, OrderMeta, OrderModel};
use crate::sql::{
    create_table_columns, insert_head, insert_keyword, names_text, opt_text, parse_insert_head,
    skip_statement, split_value_tuples, statement_end, table_columns, tuple_text, tuple_values,
    value_tuples,
};
use crate::strmap::StrMap;
use crate::text::{lossy_string, lossy_text};
use vstd::hash_set::StringHashSet;

verus! {

/// The job table of the dump.
pub const JOB_TABLE: &'static str = "t_job";

/// The column of the job table that holds the order number.
pub const JOB_NO_COL: &'static str = "mJob_No";

/// The length of the keyword `INSERT INTO`.
pub const INS_KW_LEN: usize = 11;

/// The name of the job table, `t_job`.
pub open spec fn job_table_name() -> Seq<char> {
    seq!['t', '_', 'j', 'o', 'b']
}

/// The column that holds the order number, `mJob_No`.
pub open spec fn job_no_column() -> Seq<char> {
    seq!['m', 'J', 'o', 'b', '_', 'N', 'o']
}

/// The extension of an order file, `.json`.
pub open spec fn json_suffix() -> Seq<char> {
    seq!['.', 'j', 's', 'o', 'n']
}

/// The fields of a data row: each column with a non-empty value, the first
/// value winning when a column name repeats. Only the first `k` columns are
/// taken.
pub open spec fn row_fields(
    cols: Seq<Seq<char>>,
    vals: Seq<Option<Seq<char>>>,
    k: int,
) -> Map<Seq<char>, Seq<char>>
    decreases k,
{
    if k <= 0 {
        Map::empty()
    } else {
        let m = row_fields(cols, vals, k - 1);
        if k - 1 < vals.len() && vals[k - 1] is Some && vals[k - 1]->0.len() > 0
            && !m.contains_key(cols[k - 1]) {
            m.insert(cols[k - 1], vals[k - 1]->0)
        } else {
            m
        }
    }
}

/// The order imported under number `no` with `fields`, stamped `now`.
pub open spec fn imported_order(
    no: Seq<char>,
    fields: Map<Seq<char>, Seq<char>>,
    now: Seq<char>,
) -> OrderModel {
    OrderModel {
        meta: MetaModel { id: no, created_at: now, updated_at: now, file_name: no + json_suffix() },
        order_no: no,
        fields: fields,
        cks: Map::empty(),
    }
}

/// The order a data row stands for: none when the row has no field or no
/// usable order number.
pub open spec fn row_order(
    cols: Seq<Seq<char>>,
    vals: Seq<Option<Seq<char>>>,
    now: Seq<char>,
) -> Option<OrderModel> {
    let f = row_fields(cols, vals, cols.len() as int);
    if f == Map::<Seq<char>, Seq<char>>::empty() {
        None
    } else {
        let no = order_no_text(
            if f.contains_key(job_no_column()) {
                f[job_no_column()]
            } else {
                seq![]
            },
        );
        if no.len() == 0 {
            None
        } else {
            Some(imported_order(no, f, now))
        }
    }
}

/// A list of optional strings as optional texts.
pub open spec fn values_text(v: Seq<Option<String>>) -> Seq<Option<Seq<char>>> {
    v.map_values(|o: Option<String>| opt_text(o))
}

/// A list of strings as texts.
pub open spec fn strings_text(v: Seq<String>) -> Seq<Seq<char>> {
    v.map_values(|s: String| s@)
}

/// Turns one data row into an order; `None` when the row has no non-empty
/// value or no usable order number.
pub fn tuple_to_order(columns: &[String], values: &[Option<String>], now: &str) -> (r: Option<
    Order,
>)
    ensures
        r is None ==> row_order(strings_text(columns@), values_text(values@), now@) is None,
        r matches Some(o) ==> row_order(strings_text(columns@), values_text(values@), now@) == Some(
            o@,
        ),
{
    let ghost cols = strings_text(columns@);
    let ghost vals = values_text(values@);
    let mut fields: StrMap<String> = StrMap::new();
    let mut idx: usize = 0;
    while idx < columns.len()
        invariant
            cols == strings_text(columns@),
            vals == values_text(values@),
            idx <= columns@.len(),
            fields@ == row_fields(cols, vals, idx as int),
        decreases columns@.len() - idx,
    {
        if idx < values.len() {
            match &values[idx] {
                Some(v) => {
                    if !v.as_str().is_empty() && !fields.contains_key(columns[idx].as_str()) {
                        fields.insert(columns[idx].clone(), v.clone());
                    }
                },
                None => {},
            }
        }
        idx = idx + 1;
    }
    if fields.is_empty() {
        return None;
    }
    let no_col = JOB_NO_COL;
    proof {
        reveal_strlit("mJob_No");
    }
    assert(no_col@ == job_no_column());
    let raw: &str = match fields.get(no_col) {
        Some(v) => v.as_str(),
        None => "",
    };
    proof {
        reveal_strlit("");
    }
    let order_no = clean_order_no(raw);
    if order_no.as_str().is_empty() {
        return None;
    }
    let mut file_name = order_no.clone();
    file_name.append(".json");
    proof {
        reveal_strlit(".json");
        assert(file_name@ =~= order_no@ + json_suffix());
    }
    let order = Order {
        meta: OrderMeta {
            id: order_no.clone(),
            created_at: now.to_owned(),
            updated_at: now.to_owned(),
            file_name: file_name,
        },
        order_no: order_no,
        fields: fields,
        cks: StrMap::new(),
    };
    Some(order)
}

/// Adds the orders of `rows` (in order) to `acc`: a row whose order number
/// is already in `seen` is skipped, and so is a row that makes no order.
/// Returns the orders, the order numbers seen, and the count of skipped rows.
pub open spec fn add_rows(
    cols: Seq<Seq<char>>,
    rows: Seq<Seq<Option<Seq<char>>>>,
    now: Seq<char>,
    seen: Set<Seq<char>>,
    acc: Seq<OrderModel>,
    skipped: int,
) -> (Seq<OrderModel>, Set<Seq<char>>, int)
    decreases rows.len(),
{
    if rows.len() == 0 {
        (acc, seen, skipped)
    } else {
        match row_order(cols, rows[0], now) {
            Some(o) => if !seen.contains(o.order_no) {
                add_rows(cols, rows.drop_first(), now, seen.insert(o.order_no), acc.push(o), skipped)
            } else {
                add_rows(cols, rows.drop_first(), now, seen, acc, skipped + 1)
            },
            None => add_rows(cols, rows.drop_first(), now, seen, acc, skipped + 1),
        }
    }
}

/// One statement of the scan from `pos`: finds the next `INSERT INTO` and
/// returns where the scan goes on, with the order numbers seen, the orders
/// and the skipped-row count after it; `None` when no `INSERT INTO` is left.
/// One into another table is skipped to the end of its statement; one into
/// the job table is read row by row, with its own column list or else the
/// fallback; without either, all its rows are skipped. A head that does not
/// parse is stepped over.
pub open spec fn jobs_step(
    b: Seq<u8>,
    pos: int,
    fallback: Seq<Seq<char>>,
    now: Seq<char>,
    seen: Set<Seq<char>>,
    acc: Seq<OrderModel>,
    skipped: int,
) -> Option<(int, Set<Seq<char>>, Seq<OrderModel>, int)> {
    match spec_find_ci(b.subrange(pos, b.len() as int), insert_keyword()) {
        None => None,
        Some(rel) => {
            let start = pos + rel;
            match insert_head(b, start) {
                None => Some((start + 11, seen, acc, skipped)),
                Some(head) => {
                    let (table, cols, values_at) = head;
                    if !eq_ci(encode_utf8(table), encode_utf8(job_table_name())) {
                        Some((statement_end(b, values_at), seen, acc, skipped))
                    } else {
                        let columns = if cols.len() == 0 {
                            fallback
                        } else {
                            cols
                        };
                        let (bodies, end) = value_tuples(b, values_at);
                        let next = if end > start + 11 {
                            end
                        } else {
                            start + 11
                        };
                        if columns.len() == 0 {
                            Some((next, seen, acc, skipped + bodies.len()))
                        } else {
                            let added = add_rows(
                                columns,
                                bodies.map_values(|body: Seq<u8>| tuple_values(body)),
                                now,
                                seen,
                                acc,
                                skipped,
                            );
                            Some((next, added.1, added.0, added.2))
                        }
                    }
                },
            }
        },
    }
}

/// The orders of the job table found from `pos` on, and the count of its data
/// rows skipped, given the fallback column list, the order numbers already
/// `seen`, the orders so far and the rows skipped so far: statement after
/// statement until no `INSERT INTO` is left. (Each step moves forward within
/// `b`; the scan stops otherwise.)
pub open spec fn jobs_scan(
    b: Seq<u8>,
    pos: int,
    fallback: Seq<Seq<char>>,
    now: Seq<char>,
    seen: Set<Seq<char>>,
    acc: Seq<OrderModel>,
    skipped: int,
) -> (Seq<OrderModel>, int)
    decreases b.len() - pos,
{
    if pos < 0 || pos >= b.len() {
        (acc, skipped)
    } else {
        match jobs_step(b, pos, fallback, now, seen, acc, skipped) {
            None => (acc, skipped),
            Some(st) => if pos < st.0 <= b.len() {
                jobs_scan(b, st.0, fallback, now, st.1, st.2, st.3)
            } else {
                (acc, skipped)
            },
        }
    }
}

/// The orders of the job table in the dump `b`, stamped `now`, and the
/// number of its data rows that were skipped.
pub open spec fn sql_jobs(b: Seq<u8>, now: Seq<char>) -> (Seq<OrderModel>, int) {
    jobs_scan(
        b,
        0,
        table_columns(b, encode_utf8(job_table_name())),
        now,
        Set::empty(),
        seq![],
        0,
    )
}

/// Orders as models.
pub open spec fn orders_model(v: Seq<Order>) -> Seq<OrderModel> {
    v.map_values(|o: Order| o@)
}

/// Every row counts once: as an order or as skipped.
pub proof fn lemma_add_rows_count(
    cols: Seq<Seq<char>>,
    rows: Seq<Seq<Option<Seq<char>>>>,
    now: Seq<char>,
    seen: Set<Seq<char>>,
    acc: Seq<OrderModel>,
    skipped: int,
)
    ensures
        add_rows(cols, rows, now, seen, acc, skipped).0.len() + add_rows(
            cols,
            rows,
            now,
            seen,
            acc,
            skipped,
        ).2 == acc.len() + skipped + rows.len(),
    decreases rows.len(),
{
    if rows.len() > 0 {
        match row_order(cols, rows[0], now) {
            Some(o) => if !seen.contains(o.order_no) {
                lemma_add_rows_count(
                    cols,
                    rows.drop_first(),
                    now,
                    seen.insert(o.order_no),
                    acc.push(o),
                    skipped,
                );
            } else {
                lemma_add_rows_count(cols, rows.drop_first(), now, seen, acc, skipped + 1);
            },
            None => lemma_add_rows_count(cols, rows.drop_first(), now, seen, acc, skipped + 1),
        }
    }
}

/// A scan of a MySQL dump for rows of the job table (`t_job`) that hands out
/// one order at a time, so that a caller can store each order as it comes
/// instead of holding all of them. It holds the rows of the statement being
/// read, the order numbers seen so far (a number seen before is skipped) and
/// the count of skipped rows.
pub struct JobScan {
    pos: usize,
    fallback: Vec<String>,
    columns: Vec<String>,
    use_fallback: bool,
    rows: Vec<Vec<Option<String>>>,
    next_row: usize,
    seen: StringHashSet,
    skipped: usize,
    now: String,
    input: Ghost<Seq<u8>>,
    emitted: Ghost<Seq<OrderModel>>,
}

impl JobScan {
    /// The dump being scanned.
    pub closed spec fn input(&self) -> Seq<u8> {
        self.input@
    }

    /// The time the orders are stamped with.
    pub closed spec fn now_text(&self) -> Seq<char> {
        self.now@
    }

    /// The orders handed out so far.
    pub closed spec fn emitted(&self) -> Seq<OrderModel> {
        self.emitted@
    }

    /// The rows skipped so far.
    pub closed spec fn skipped_rows(&self) -> nat {
        self.skipped as nat
    }

    /// How much is left to scan: bytes after the statement being read, and
    /// its rows not yet turned into orders.
    pub closed spec fn work_left(&self) -> int {
        (self.input@.len() - self.pos) + (self.rows@.len() - self.next_row)
    }

    /// The columns of the rows being read.
    closed spec fn cols_text(&self) -> Seq<Seq<char>> {
        if self.use_fallback {
            names_text(self.fallback)
        } else {
            names_text(self.columns)
        }
    }

    /// The rows of the statement being read that are not read yet.
    closed spec fn rows_left(&self) -> Seq<Seq<Option<Seq<char>>>> {
        self.rows@.map_values(|r: Vec<Option<String>>| tuple_text(r)).skip(self.next_row as int)
    }

    /// What the scan comes to from here: the orders and skipped rows of the
    /// whole dump.
    closed spec fn outcome(&self) -> (Seq<OrderModel>, int) {
        let added = add_rows(
            self.cols_text(),
            self.rows_left(),
            self.now@,
            self.seen@,
            self.emitted@,
            self.skipped as int,
        );
        jobs_scan(
            self.input@,
            self.pos as int,
            names_text(self.fallback),
            self.now@,
            added.1,
            added.0,
            added.2,
        )
    }

    /// The scan is consistent: it will come to the orders and skipped rows of
    /// the whole dump.
    pub closed spec fn wf(&self) -> bool {
        &&& self.pos <= self.input@.len()
        &&& names_text(self.fallback) == table_columns(self.input@, encode_utf8(job_table_name()))
        &&& self.next_row <= self.rows@.len()
        &&& self.emitted@.len() + self.skipped + (self.rows@.len() - self.next_row) <= self.pos
        &&& self.next_row < self.rows@.len() ==> self.cols_text().len() > 0
        &&& self.outcome() == sql_jobs(self.input@, self.now@)
    }

    /// Starts a scan of the dump `sql`; orders will be stamped `now`.
    pub fn new(sql: &str, now: &str) -> (r: Self)
        ensures
            r.wf(),
            r.input() == sql.spec_bytes(),
            r.now_text() == now@,
            r.emitted() == Seq::<OrderModel>::empty(),
            r.skipped_rows() == 0,
    {
        let job_table = JOB_TABLE;
        proof {
            reveal_strlit("t_job");
        }
        assert(job_table@ == job_table_name());
        let fallback = create_table_columns(sql, job_table);
        let r = JobScan {
            pos: 0,
            fallback,
            columns: Vec::new(),
            use_fallback: false,
            rows: Vec::new(),
            next_row: 0,
            seen: StringHashSet::new(),
            skipped: 0,
            now: now.to_owned(),
            input: Ghost(sql.spec_bytes()),
            emitted: Ghost(Seq::empty()),
        };
        assert(r.rows_left() =~= Seq::<Seq<Option<Seq<char>>>>::empty());
        r
    }

    /// The number of data rows skipped so far.
    pub fn skipped(&self) -> (r: usize)
        ensures
            r == self.skipped_rows(),
    {
        self.skipped
    }

    /// The next order of the dump `sql` (the dump the scan was started on),
    /// or `None` when there is none left; then the orders handed out are all
    /// the orders of the dump, and the skipped count is complete.
    pub fn next_job(&mut self, sql: &str) -> (r: Option<Order>)
        requires
            old(self).wf(),
            sql.spec_bytes() == old(self).input(),
        ensures
            final(self).wf(),
            final(self).input() == old(self).input(),
            final(self).now_text() == old(self).now_text(),
            match r {
                Some(o) => {
                    &&& final(self).emitted() == old(self).emitted().push(o@)
                    &&& final(self).work_left() < old(self).work_left()
                },
                None => {
                    &&& final(self).emitted() == old(self).emitted()
                    &&& final(self).emitted() == sql_jobs(final(self).input(), final(self).now_text()).0
                    &&& final(self).skipped_rows() == sql_jobs(
                        final(self).input(),
                        final(self).now_text(),
                    ).1
                },
            },
    {
        let bytes = sql.as_bytes();
        let job_bytes = JOB_TABLE.as_bytes();
        proof {
            reveal_strlit("t_job");
        }
        assert(JOB_TABLE@ == job_table_name());
        let kw: Vec<u8> = vec![73u8, 78u8, 83u8, 69u8, 82u8, 84u8, 32u8, 73u8, 78u8, 84u8, 79u8];
        assert(kw@ =~= insert_keyword());
        let ghost b = self.input@;
        let ghost now = self.now@;
        let ghost emitted0 = self.emitted@;
        let ghost work0 = self.work_left();
        loop
            invariant
                self.wf(),
                self.input@ == b,
                self.now@ == now,
                b == old(self).input(),
                now == old(self).now_text(),
                emitted0 == old(self).emitted(),
                work0 == old(self).work_left(),
                bytes@ == b,
                kw@ == insert_keyword(),
                job_bytes@ == encode_utf8(job_table_name()),
                self.emitted@ == emitted0,
                self.work_left() <= work0,
            decreases self.work_left(),
        {
            if self.next_row < self.rows.len() {
                let k = self.next_row;
                let ghost rows_all = self.rows@.map_values(|r: Vec<Option<String>>| tuple_text(r));
                proof {
                    assert(self.rows_left()[0] == rows_all[k as int]);
                    assert(self.rows_left().drop_first() =~= rows_all.skip(k + 1));
                    assert(values_text(self.rows@[k as int]@) == tuple_text(self.rows@[k as int]));
                    assert(strings_text(self.fallback@) == names_text(self.fallback));
                    assert(strings_text(self.columns@) == names_text(self.columns));
                }
                let found = if self.use_fallback {
                    tuple_to_order(self.fallback.as_slice(), self.rows[k].as_slice(), self.now.as_str())
                } else {
                    tuple_to_order(self.columns.as_slice(), self.rows[k].as_slice(), self.now.as_str())
                };
                self.next_row = k + 1;
                match found {
                    Some(order) => {
                        let ghost seen_before = self.seen@;
                        let no = order.order_no.clone();
                        assert(no@ == order@.order_no);
                        if self.seen.insert(no) {
                            proof {
                                assert(!seen_before.contains(order@.order_no));
                                self.emitted = Ghost(self.emitted@.push(order@));
                            }
                            return Some(order);
                        } else {
                            assert(seen_before.contains(order@.order_no));
                            assert(self.seen@ =~= seen_before);
                            self.skipped = self.skipped + 1;
                        }
                    },
                    None => {
                        self.skipped = self.skipped + 1;
                    },
                }
            } else {
                proof {
                    assert(self.rows_left() =~= Seq::<Seq<Option<Seq<char>>>>::empty());
                }
                let pos = self.pos;
                if pos >= bytes.len() {
                    return None;
                }
                let rest = &bytes[pos..bytes.len()];
                let rel = match find_ci(rest, kw.as_slice()) {
                    Some(rel) => rel,
                    None => {
                        return None;
                    },
                };
                let start = pos + rel;
                match parse_insert_head(bytes, start) {
                    None => {
                        self.pos = start + INS_KW_LEN;
                    },
                    Some(h) => {
                        let (table, cols, values_at) = h;
                        if !eq_ignore_case(table.as_str().as_bytes(), job_bytes) {
                            self.pos = skip_statement(bytes, values_at);
                        } else {
                            let use_fallback = cols.len() == 0;
                            let (tuples, end) = split_value_tuples(bytes, values_at);
                            let ghost bodies = value_tuples(b, values_at as int).0;
                            let next = if end > start + INS_KW_LEN {
                                end
                            } else {
                                start + INS_KW_LEN
                            };
                            let empty_cols = if use_fallback {
                                self.fallback.len() == 0
                            } else {
                                false
                            };
                            if empty_cols {
                                self.skipped = self.skipped + tuples.len();
                            } else {
                                let ghost rows = bodies.map_values(|body: Seq<u8>| tuple_values(body));
                                self.columns = cols;
                                self.use_fallback = use_fallback;
                                self.rows = tuples;
                                self.next_row = 0;
                                proof {
                                    assert(self.rows_left() =~= rows);
                                }
                            }
                            self.pos = next;
                        }
                    },
                }
            }
        }
    }
}

/// The text of a dump file's bytes: decoded as UTF-8, with invalid sequences
/// replaced (a dump need not be valid UTF-8).
pub fn dump_text(bytes: &[u8]) -> (r: String)
    ensures
        r@ == lossy_text(bytes@),
{
    lossy_string(bytes)
}

/// Scans a MySQL dump for rows of the job table (`t_job`) and turns each into
/// an order stamped `now`. Returns the orders, in the order of the dump, and
/// the number of data rows skipped: rows without an order number, rows that
/// repeat an earlier order number (the first is kept), and rows of a statement
/// whose columns cannot be named.
pub fn for_each_job_from_sql(sql: &str, now: &str) -> (r: (Vec<Order>, usize))
    ensures
        orders_model(r.0@) == sql_jobs(sql.spec_bytes(), now@).0,
        r.1 == sql_jobs(sql.spec_bytes(), now@).1,
{
    let mut scan = JobScan::new(sql, now);
    let mut orders: Vec<Order> = Vec::new();
    assert(orders_model(orders@) =~= Seq::<OrderModel>::empty());
    loop
        invariant
            scan.wf(),
            scan.input() == sql.spec_bytes(),
            scan.now_text() == now@,
            orders_model(orders@) == scan.emitted(),
        decreases scan.work_left(),
    {
        match scan.next_job(sql) {
            Some(order) => {
                let ghost before = orders_model(orders@);
                let ghost om = order@;
                orders.push(order);
                assert(orders_model(orders@) =~= before.push(om));
            },
            None => {
                return (orders, scan.skipped());
            },
        }
    }
}

/// The shape of every imported order: a non-empty order number that is
/// also its id and, with `.json`, its file name; created and updated `now`;
/// some fields; no check boxes.
pub open spec fn is_imported_order(o: OrderModel, now: Seq<char>) -> bool {
    &&& o.order_no.len() > 0
    &&& o.meta.id == o.order_no
    &&& o.meta.file_name == o.order_no + json_suffix()
    &&& o.meta.created_at == now
    &&& o.meta.updated_at == now
    &&& o.fields != Map::<Seq<char>, Seq<char>>::empty()
    &&& o.cks == Map::<Seq<char>, bool>::empty()
}

/// No two orders share an order number.
pub open spec fn distinct_order_nos(s: Seq<OrderModel>) -> bool {
    forall|i: int, j: int| 0 <= i < j < s.len() ==> #[trigger] s[i].order_no != #[trigger] s[j].order_no
}

/// The order numbers of the orders.
pub open spec fn order_nos(s: Seq<OrderModel>) -> Seq<Seq<char>> {
    s.map_values(|o: OrderModel| o.order_no)
}

/// What the scan keeps true of the orders found so far.
pub open spec fn imported_so_far(acc: Seq<OrderModel>, seen: Set<Seq<char>>, now: Seq<char>) -> bool {
    &&& forall|x: Seq<char>| #[trigger] seen.contains(x) <==> order_nos(acc).contains(x)
    &&& distinct_order_nos(acc)
    &&& forall|i: int| 0 <= i < acc.len() ==> is_imported_order(#[trigger] acc[i], now)
}

/// A row's order has the shape of an imported order.
pub proof fn lemma_row_order_shape(cols: Seq<Seq<char>>, vals: Seq<Option<Seq<char>>>, now: Seq<char>)
    ensures
        row_order(cols, vals, now) matches Some(o) ==> is_imported_order(o, now),
{
}

/// Adding rows keeps the orders distinct and well shaped.
proof fn lemma_add_rows_keeps(
    cols: Seq<Seq<char>>,
    rows: Seq<Seq<Option<Seq<char>>>>,
    now: Seq<char>,
    seen: Set<Seq<char>>,
    acc: Seq<OrderModel>,
    skipped: int,
)
    requires
        imported_so_far(acc, seen, now),
    ensures
        imported_so_far(
            add_rows(cols, rows, now, seen, acc, skipped).0,
            add_rows(cols, rows, now, seen, acc, skipped).1,
            now,
        ),
    decreases rows.len(),
{
    if rows.len() > 0 {
        lemma_row_order_shape(cols, rows[0], now);
        match row_order(cols, rows[0], now) {
            Some(o) => if !seen.contains(o.order_no) {
                let acc2 = acc.push(o);
                let seen2 = seen.insert(o.order_no);
                assert(order_nos(acc2) =~= order_nos(acc).push(o.order_no));
                assert forall|x: Seq<char>| #[trigger] seen2.contains(x) <==> order_nos(acc2).contains(x) by {
                    if order_nos(acc2).contains(x) {
                        let k = choose|k: int| 0 <= k < order_nos(acc2).len() && order_nos(acc2)[k] == x;
                        if k < acc.len() {
                            assert(order_nos(acc)[k] == x);
                        }
                    }
                    if seen.contains(x) {
                        let k = choose|k: int| 0 <= k < order_nos(acc).len() && order_nos(acc)[k] == x;
                        assert(order_nos(acc2)[k] == x);
                    }
                    if x == o.order_no {
                        assert(order_nos(acc2)[acc.len() as int] == x);
                    }
                }
                assert forall|i: int, j: int| 0 <= i < j < acc2.len() implies #[trigger] acc2[i].order_no
                    != #[trigger] acc2[j].order_no by {
                    if j == acc.len() {
                        assert(order_nos(acc)[i] == acc[i].order_no);
                        assert(order_nos(acc).contains(acc[i].order_no));
                    } else {
                        assert(acc[i].order_no != acc[j].order_no);
                    }
                }
                assert forall|i: int| 0 <= i < acc2.len() implies is_imported_order(#[trigger] acc2[i], now) by {
                    if i < acc.len() {
                        assert(acc2[i] == acc[i]);
                    }
                }
                lemma_add_rows_keeps(cols, rows.drop_first(), now, seen2, acc2, skipped);
            } else {
                lemma_add_rows_keeps(cols, rows.drop_first(), now, seen, acc, skipped + 1);
            },
            None => lemma_add_rows_keeps(cols, rows.drop_first(), now, seen, acc, skipped + 1),
        }
    }
}

/// The whole scan keeps the orders distinct and well shaped.
proof fn lemma_jobs_scan_keeps(
    b: Seq<u8>,
    pos: int,
    fallback: Seq<Seq<char>>,
    now: Seq<char>,
    seen: Set<Seq<char>>,
    acc: Seq<OrderModel>,
    skipped: int,
)
    requires
        imported_so_far(acc, seen, now),
    ensures
        distinct_order_nos(jobs_scan(b, pos, fallback, now, seen, acc, skipped).0),
        forall|i: int|
            0 <= i < jobs_scan(b, pos, fallback, now, seen, acc, skipped).0.len() ==> is_imported_order(
                #[trigger] jobs_scan(b, pos, fallback, now, seen, acc, skipped).0[i],
                now,
            ),
    decreases b.len() - pos,
{
    if 0 <= pos < b.len() {
        match jobs_step(b, pos, fallback, now, seen, acc, skipped) {
            None => {},
            Some(st) => {
                if pos < st.0 <= b.len() {
                    match spec_find_ci(b.subrange(pos, b.len() as int), insert_keyword()) {
                        None => {},
                        Some(rel) => {
                            let start = pos + rel;
                            match insert_head(b, start) {
                                None => {},
                                Some(head) => {
                                    let (table, cols, values_at) = head;
                                    if eq_ci(encode_utf8(table), encode_utf8(job_table_name())) {
                                        let columns = if cols.len() == 0 {
                                            fallback
                                        } else {
                                            cols
                                        };
                                        let bodies = value_tuples(b, values_at).0;
                                        if columns.len() > 0 {
                                            lemma_add_rows_keeps(
                                                columns,
                                                bodies.map_values(|body: Seq<u8>| tuple_values(body)),
                                                now,
                                                seen,
                                                acc,
                                                skipped,
                                            );
                                        }
                                    }
                                },
                            }
                        },
                    }
                    lemma_jobs_scan_keeps(b, st.0, fallback, now, st.1, st.2, st.3);
                }
            },
        }
    }
}

/// The orders imported from a dump have distinct order numbers (a number
/// that repeats keeps its first row), and each has the shape of an imported
/// order: numbered, named after its number, stamped `now`.
pub proof fn lemma_imported_orders(b: Seq<u8>, now: Seq<char>)
    ensures
        distinct_order_nos(sql_jobs(b, now).0),
        forall|i: int|
            0 <= i < sql_jobs(b, now).0.len() ==> is_imported_order(#[trigger] sql_jobs(b, now).0[i], now),
{
    assert(order_nos(Seq::<OrderModel>::empty()) =~= Seq::<Seq<char>>::empty());
    lemma_jobs_scan_keeps(
        b,
        0,
        table_columns(b, encode_utf8(job_table_name())),
        now,
        Set::empty(),
        seq![],
        0,
    );
}

/// The number of data rows in the `INSERT INTO` statements of the job table
/// from `pos` on, scanned as the import scans them.
pub open spec fn job_rows_from(b: Seq<u8>, pos: int) -> int
    decreases b.len() - pos,
{
    if pos < 0 || pos >= b.len() {
        0
    } else {
        match spec_find_ci(b.subrange(pos, b.len() as int), insert_keyword()) {
            None => 0,
            Some(rel) => {
                let start = pos + rel;
                let (next, rows) = match insert_head(b, start) {
                    None => (start + 11, 0int),
                    Some(head) => {
                        let (table, cols, values_at) = head;
                        if !eq_ci(encode_utf8(table), encode_utf8(job_table_name())) {
                            (statement_end(b, values_at), 0int)
                        } else {
                            let (bodies, end) = value_tuples(b, values_at);
                            (if end > start + 11 { end } else { start + 11 }, bodies.len() as int)
                        }
                    },
                };
                if pos < next <= b.len() {
                    rows + job_rows_from(b, next)
                } else {
                    0
                }
            },
        }
    }
}

/// Every data row of the job table is counted once: as an order or as
/// skipped.
pub proof fn lemma_jobs_scan_count(
    b: Seq<u8>,
    pos: int,
    fallback: Seq<Seq<char>>,
    now: Seq<char>,
    seen: Set<Seq<char>>,
    acc: Seq<OrderModel>,
    skipped: int,
)
    ensures
        jobs_scan(b, pos, fallback, now, seen, acc, skipped).0.len() + jobs_scan(
            b,
            pos,
            fallback,
            now,
            seen,
            acc,
            skipped,
        ).1 == acc.len() + skipped + job_rows_from(b, pos),
    decreases b.len() - pos,
{
    if 0 <= pos < b.len() {
        match spec_find_ci(b.subrange(pos, b.len() as int), insert_keyword()) {
            None => {},
            Some(rel) => {
                let start = pos + rel;
                let st = jobs_step(b, pos, fallback, now, seen, acc, skipped)->0;
                match insert_head(b, start) {
                    None => {},
                    Some(head) => {
                        let (table, cols, values_at) = head;
                        if eq_ci(encode_utf8(table), encode_utf8(job_table_name())) {
                            let columns = if cols.len() == 0 {
                                fallback
                            } else {
                                cols
                            };
                            let bodies = value_tuples(b, values_at).0;
                            if columns.len() > 0 {
                                lemma_add_rows_count(
                                    columns,
                                    bodies.map_values(|body: Seq<u8>| tuple_values(body)),
                                    now,
                                    seen,
                                    acc,
                                    skipped,
                                );
                            }
                        }
                    },
                }
                if pos < st.0 <= b.len() {
                    lemma_jobs_scan_count(b, st.0, fallback, now, st.1, st.2, st.3);
                }
            },
        }
    }
}

/// Importing a dump accounts for every data row of the job table: the
/// orders plus the skipped rows are all its rows.
pub proof fn lemma_import_accounts_for_rows(b: Seq<u8>, now: Seq<char>)
    ensures
        sql_jobs(b, now).0.len() + sql_jobs(b, now).1 == job_rows_from(b, 0),
{
    lemma_jobs_scan_count(
        b,
        0,
        table_columns(b, encode_utf8(job_table_name())),
        now,
        Set::empty(),
        seq![],
        0,
    );
}

/// Column `j` of a row holds a usable value: it is present and not empty.
pub open spec fn has_value(vals: Seq<Option<Seq<char>>>, j: int) -> bool {
    0 <= j < vals.len() && vals[j] is Some && vals[j]->0.len() > 0
}

/// The fields of a row keep, for each column name, the first non-empty
/// value given under that name, and only names that have one: a field `c`
/// is present exactly when some column `j` (among the first `k`) named `c`
/// has a value, and then it is the value of the first such column.
pub proof fn lemma_row_fields_first_value(
    cols: Seq<Seq<char>>,
    vals: Seq<Option<Seq<char>>>,
    k: int,
    c: Seq<char>,
)
    requires
        0 <= k <= cols.len(),
    ensures
        row_fields(cols, vals, k).contains_key(c) <==> exists|j: int|
            0 <= j < k && cols[j] == c && #[trigger] has_value(vals, j),
        row_fields(cols, vals, k).contains_key(c) ==> exists|j: int|
            0 <= j < k && cols[j] == c && #[trigger] has_value(vals, j) && row_fields(cols, vals, k)[c]
                == vals[j]->0 && forall|q: int| 0 <= q < j && cols[q] == c ==> !has_value(vals, q),
    decreases k,
{
    if k > 0 {
        lemma_row_fields_first_value(cols, vals, k - 1, c);
        let m = row_fields(cols, vals, k - 1);
        if has_value(vals, k - 1) && !m.contains_key(cols[k - 1]) && cols[k - 1] == c {
            assert forall|q: int| 0 <= q < k - 1 && cols[q] == c implies !has_value(vals, q) by {
                if has_value(vals, q) {
                    assert(exists|j: int| 0 <= j < k - 1 && cols[j] == c && #[trigger] has_value(vals, j));
                }
            }
            assert(has_value(vals, k - 1));
        } else {
            if exists|j: int| 0 <= j < k && cols[j] == c && #[trigger] has_value(vals, j) {
                let j = choose|j: int| 0 <= j < k && cols[j] == c && #[trigger] has_value(vals, j);
                if j == k - 1 {
                    assert(m.contains_key(c));
                } else {
                    assert(exists|j: int| 0 <= j < k - 1 && cols[j] == c && #[trigger] has_value(vals, j));
                }
            }
        }
    }
}

/// The number of the order row `j` makes, if it makes one.
pub open spec fn row_no(
    cols: Seq<Seq<char>>,
    rows: Seq<Seq<Option<Seq<char>>>>,
    now: Seq<char>,
    j: int,
) -> Option<Seq<char>> {
    match row_order(cols, rows[j], now) {
        Some(o) => Some(o.order_no),
        None => None,
    }
}

/// Row `j` makes an order, and no earlier row makes one with the same
/// number.
pub open spec fn first_with_no(
    cols: Seq<Seq<char>>,
    rows: Seq<Seq<Option<Seq<char>>>>,
    now: Seq<char>,
    j: int,
) -> bool {
    &&& row_order(cols, rows[j], now) is Some
    &&& forall|q: int|
        0 <= q < j ==> row_no(cols, rows, now, q) != Some(row_order(cols, rows[j], now)->0.order_no)
}

/// One more row after the others.
proof fn lemma_add_rows_snoc(
    cols: Seq<Seq<char>>,
    rows: Seq<Seq<Option<Seq<char>>>>,
    r: Seq<Option<Seq<char>>>,
    now: Seq<char>,
    seen: Set<Seq<char>>,
    acc: Seq<OrderModel>,
    skipped: int,
)
    ensures
        ({
            let st = add_rows(cols, rows, now, seen, acc, skipped);
            add_rows(cols, rows.push(r), now, seen, acc, skipped) == match row_order(cols, r, now) {
                Some(o) => if !st.1.contains(o.order_no) {
                    (st.0.push(o), st.1.insert(o.order_no), st.2)
                } else {
                    (st.0, st.1, st.2 + 1)
                },
                None => (st.0, st.1, st.2 + 1),
            }
        }),
    decreases rows.len(),
{
    if rows.len() == 0 {
        let rr = rows.push(r);
        let none = Seq::<Seq<Option<Seq<char>>>>::empty();
        assert(rr.drop_first() =~= none);
        assert(rr[0] == r);
        match row_order(cols, r, now) {
            Some(o) => if !seen.contains(o.order_no) {
                assert(add_rows(cols, none, now, seen.insert(o.order_no), acc.push(o), skipped) == (
                    acc.push(o),
                    seen.insert(o.order_no),
                    skipped,
                ));
            } else {
                assert(add_rows(cols, none, now, seen, acc, skipped + 1) == (acc, seen, skipped + 1));
            },
            None => {
                assert(add_rows(cols, none, now, seen, acc, skipped + 1) == (acc, seen, skipped + 1));
            },
        }
    } else {
        assert(rows.push(r).drop_first() =~= rows.drop_first().push(r));
        assert(rows.push(r)[0] == rows[0]);
        match row_order(cols, rows[0], now) {
            Some(o) => if !seen.contains(o.order_no) {
                lemma_add_rows_snoc(cols, rows.drop_first(), r, now, seen.insert(o.order_no), acc.push(o), skipped);
            } else {
                lemma_add_rows_snoc(cols, rows.drop_first(), r, now, seen, acc, skipped + 1);
            },
            None => lemma_add_rows_snoc(cols, rows.drop_first(), r, now, seen, acc, skipped + 1),
        }
    }
}

/// Of the rows of a statement, the first row of each order number is kept
/// and every later row with that number is dropped: each order comes from a
/// row that is the first with its number, and each such row gives an order.
pub proof fn lemma_first_row_of_each_number_kept(
    cols: Seq<Seq<char>>,
    rows: Seq<Seq<Option<Seq<char>>>>,
    now: Seq<char>,
)
    ensures
        forall|i: int|
            0 <= i < add_rows(cols, rows, now, Set::empty(), seq![], 0).0.len() ==> exists|j: int|
                0 <= j < rows.len() && #[trigger] first_with_no(cols, rows, now, j) && row_order(
                    cols,
                    rows[j],
                    now,
                ) == Some(#[trigger] add_rows(cols, rows, now, Set::empty(), seq![], 0).0[i]),
        forall|j: int|
            0 <= j < rows.len() && #[trigger] first_with_no(cols, rows, now, j) ==> add_rows(
                cols,
                rows,
                now,
                Set::empty(),
                seq![],
                0,
            ).0.contains(row_order(cols, rows[j], now)->0),
        forall|x: Seq<char>|
            #[trigger] add_rows(cols, rows, now, Set::empty(), seq![], 0).1.contains(x) <==> exists|j: int|
                0 <= j < rows.len() && #[trigger] row_no(cols, rows, now, j) == Some(x),
    decreases rows.len(),
{
    let e = Set::<Seq<char>>::empty();
    let a = Seq::<OrderModel>::empty();
    if rows.len() == 0 {
    } else {
        let t = rows.drop_last();
        let r = rows.last();
        assert(t.push(r) =~= rows);
        lemma_first_row_of_each_number_kept(cols, t, now);
        lemma_add_rows_snoc(cols, t, r, now, e, a, 0);
        let st = add_rows(cols, t, now, e, a, 0);
        let out = add_rows(cols, rows, now, e, a, 0).0;
        let n = t.len() as int;
        assert forall|q: int| 0 <= q < n implies #[trigger] row_no(cols, rows, now, q) == row_no(
            cols,
            t,
            now,
            q,
        ) by {
            assert(rows[q] == t[q]);
        }
        assert forall|j: int| 0 <= j < n implies #[trigger] first_with_no(cols, rows, now, j)
            == first_with_no(cols, t, now, j) by {
            assert(rows[j] == t[j]);
            if first_with_no(cols, t, now, j) {
                assert forall|q: int| 0 <= q < j implies row_no(cols, rows, now, q) != Some(
                    row_order(cols, rows[j], now)->0.order_no,
                ) by {
                    assert(row_no(cols, rows, now, q) == row_no(cols, t, now, q));
                }
            }
            if first_with_no(cols, rows, now, j) {
                assert forall|q: int| 0 <= q < j implies row_no(cols, t, now, q) != Some(
                    row_order(cols, t[j], now)->0.order_no,
                ) by {
                    assert(row_no(cols, rows, now, q) == row_no(cols, t, now, q));
                }
            }
        }
        assert(rows[n] == r);
        // the new row's number was seen before exactly when an earlier row has it
        match row_order(cols, r, now) {
            Some(o) => {
                if !st.1.contains(o.order_no) {
                    assert(out == st.0.push(o));
                    assert(first_with_no(cols, rows, now, n)) by {
                        assert forall|q: int| 0 <= q < n implies row_no(cols, rows, now, q) != Some(
                            o.order_no,
                        ) by {
                            if row_no(cols, rows, now, q) == Some(o.order_no) {
                                assert(row_no(cols, t, now, q) == Some(o.order_no));
                            }
                        }
                    }
                    assert forall|i: int| 0 <= i < out.len() implies exists|j: int|
                        0 <= j < rows.len() && #[trigger] first_with_no(cols, rows, now, j) && row_order(
                            cols,
                            rows[j],
                            now,
                        ) == Some(#[trigger] out[i]) by {
                        if i < st.0.len() {
                            assert(out[i] == st.0[i]);
                            let j = choose|j: int|
                                0 <= j < t.len() && #[trigger] first_with_no(cols, t, now, j) && row_order(
                                    cols,
                                    t[j],
                                    now,
                                ) == Some(#[trigger] st.0[i]);
                            assert(first_with_no(cols, rows, now, j));
                            assert(rows[j] == t[j]);
                        } else {
                            assert(out[i] == o);
                            assert(first_with_no(cols, rows, now, n));
                        }
                    }
                    assert forall|j: int| 0 <= j < rows.len() && #[trigger] first_with_no(cols, rows, now, j)
                        implies out.contains(row_order(cols, rows[j], now)->0) by {
                        if j < n {
                            assert(first_with_no(cols, t, now, j));
                            assert(rows[j] == t[j]);
                            let k = choose|k: int| 0 <= k < st.0.len() && st.0[k] == row_order(cols, t[j], now)->0;
                            assert(out[k] == st.0[k]);
                        } else {
                            assert(out[out.len() - 1] == o);
                        }
                    }
                    assert forall|x: Seq<char>| #[trigger] add_rows(cols, rows, now, e, a, 0).1.contains(x)
                        <==> exists|j: int| 0 <= j < rows.len() && #[trigger] row_no(cols, rows, now, j) == Some(x) by {
                        if st.1.contains(x) {
                            let j = choose|j: int| 0 <= j < t.len() && #[trigger] row_no(cols, t, now, j) == Some(x);
                            assert(row_no(cols, rows, now, j) == Some(x));
                        }
                        if x == o.order_no {
                            assert(row_no(cols, rows, now, n) == Some(x));
                        }
                        if exists|j: int| 0 <= j < rows.len() && #[trigger] row_no(cols, rows, now, j) == Some(x) {
                            let j = choose|j: int| 0 <= j < rows.len() && #[trigger] row_no(cols, rows, now, j) == Some(x);
                            if j < n {
                                assert(row_no(cols, t, now, j) == Some(x));
                            }
                        }
                    }
                } else {
                    let k = choose|k: int| 0 <= k < t.len() && #[trigger] row_no(cols, t, now, k) == Some(o.order_no);
                    assert(row_no(cols, rows, now, k) == Some(o.order_no));
                    assert(!first_with_no(cols, rows, now, n));
                    assert(out == st.0);
                    assert forall|i: int| 0 <= i < out.len() implies exists|j: int|
                        0 <= j < rows.len() && #[trigger] first_with_no(cols, rows, now, j) && row_order(
                            cols,
                            rows[j],
                            now,
                        ) == Some(#[trigger] out[i]) by {
                        assert(out[i] == st.0[i]);
                        let j = choose|j: int|
                            0 <= j < t.len() && #[trigger] first_with_no(cols, t, now, j) && row_order(
                                cols,
                                t[j],
                                now,
                            ) == Some(#[trigger] st.0[i]);
                        assert(first_with_no(cols, rows, now, j));
                        assert(rows[j] == t[j]);
                    }
                    assert forall|j: int| 0 <= j < rows.len() && #[trigger] first_with_no(cols, rows, now, j)
                        implies out.contains(row_order(cols, rows[j], now)->0) by {
                        if j < n {
                            assert(first_with_no(cols, t, now, j));
                            assert(rows[j] == t[j]);
                        }
                    }
                    assert forall|x: Seq<char>| #[trigger] add_rows(cols, rows, now, e, a, 0).1.contains(x)
                        <==> exists|j: int| 0 <= j < rows.len() && #[trigger] row_no(cols, rows, now, j) == Some(x) by {
                        if st.1.contains(x) {
                            let j = choose|j: int| 0 <= j < t.len() && #[trigger] row_no(cols, t, now, j) == Some(x);
                            assert(row_no(cols, rows, now, j) == Some(x));
                        }
                        if exists|j: int| 0 <= j < rows.len() && #[trigger] row_no(cols, rows, now, j) == Some(x) {
                            let j = choose|j: int| 0 <= j < rows.len() && #[trigger] row_no(cols, rows, now, j) == Some(x);
                            if j < n {
                                assert(row_no(cols, t, now, j) == Some(x));
                            }
                        }
                    }
                }
            },
            None => {
                assert(row_no(cols, rows, now, n) is None);
                assert(!first_with_no(cols, rows, now, n));
                assert(out == st.0);
                assert forall|i: int| 0 <= i < out.len() implies exists|j: int|
                    0 <= j < rows.len() && #[trigger] first_with_no(cols, rows, now, j) && row_order(
                        cols,
                        rows[j],
                        now,
                    ) == Some(#[trigger] out[i]) by {
                    assert(out[i] == st.0[i]);
                    let j = choose|j: int|
                        0 <= j < t.len() && #[trigger] first_with_no(cols, t, now, j) && row_order(
                            cols,
                            t[j],
                            now,
                        ) == Some(#[trigger] st.0[i]);
                    assert(first_with_no(cols, rows, now, j));
                    assert(rows[j] == t[j]);
                }
                assert forall|j: int| 0 <= j < rows.len() && #[trigger] first_with_no(cols, rows, now, j)
                    implies out.contains(row_order(cols, rows[j], now)->0) by {
                    if j < n {
                        assert(first_with_no(cols, t, now, j));
                        assert(rows[j] == t[j]);
                    }
                }
                assert forall|x: Seq<char>| #[trigger] add_rows(cols, rows, now, e, a, 0).1.contains(x)
                    <==> exists|j: int| 0 <= j < rows.len() && #[trigger] row_no(cols, rows, now, j) == Some(x) by {
                    if st.1.contains(x) {
                        let j = choose|j: int| 0 <= j < t.len() && #[trigger] row_no(cols, t, now, j) == Some(x);
                        assert(row_no(cols, rows, now, j) == Some(x));
                    }
                    if exists|j: int| 0 <= j < rows.len() && #[trigger] row_no(cols, rows, now, j) == Some(x) {
                        let j = choose|j: int| 0 <= j < rows.len() && #[trigger] row_no(cols, rows, now, j) == Some(x);
                        if j < n {
                            assert(row_no(cols, t, now, j) == Some(x));
                        }
                    }
                }
            },
        }
    }
}

} // verus!
