//! The persistence planner: what the worker that owns the SQL
//! connection must execute for each queued world mutation, as statement
//! kinds and bound arguments. The SQL engine itself runs outside the
//! library.

use vstd::prelude::*;
use crate::world::{spec_chunked, chunked, StoreCommand, StoreCommandView};

verus! {

/// The prepared statements the worker holds.
#[derive(Clone, Copy, Debug, PartialEq, Eq, Structural)]
pub enum StatementKind {
    /// Insert or replace one block row.
    SetBlock,
    /// Insert or replace one sign row.
    SetSign,
    /// Delete every sign row anchored at a position.
    DeleteSigns,
    /// Delete the sign row of one face of a position.
    DeleteIndividualSign,
}

/// One bound statement argument.
#[derive(Clone, Debug)]
pub enum SqlArg {
    Int(i64),
    Text(String),
}

/// Spec-level image of a bound argument.
pub enum SqlArgView {
    Int(i64),
    Text(Seq<char>),
}

impl View for SqlArg {
    type V = SqlArgView;

    open spec fn view(&self) -> SqlArgView {
        match self {
            SqlArg::Int(v) => SqlArgView::Int(*v),
            SqlArg::Text(t) => SqlArgView::Text(t@),
        }
    }
}

/// One statement execution: which prepared statement, with which
/// arguments bound in order.
pub struct SqlOp {
    pub statement: StatementKind,
    pub args: Vec<SqlArg>,
}

/// Spec-level image of one statement execution.
pub struct SqlOpView {
    pub statement: StatementKind,
    pub args: Seq<SqlArgView>,
}

impl View for SqlOp {
    type V = SqlOpView;

    open spec fn view(&self) -> SqlOpView {
        SqlOpView { statement: self.statement, args: self.args@.map_values(|a: SqlArg| a@) }
    }
}

/// The statement executions one queued mutation requires, in order:
/// a block write binds `(p, q, x, y, z, w)` and, when the block is air,
/// is followed by deleting every sign anchored there; a sign write with
/// text binds `(p, q, x, y, z, face, text)` with the chunk computed from
/// the position, and one with empty text deletes that face's row.
pub open spec fn spec_plan(cmd: StoreCommandView) -> Seq<SqlOpView> {
    match cmd {
        StoreCommandView::SetBlock { xyz, pq, w } => {
            let ins = SqlOpView {
                statement: StatementKind::SetBlock,
                args: seq![
                    SqlArgView::Int(pq.0 as i64),
                    SqlArgView::Int(pq.1 as i64),
                    SqlArgView::Int(xyz.0 as i64),
                    SqlArgView::Int(xyz.1 as i64),
                    SqlArgView::Int(xyz.2 as i64),
                    SqlArgView::Int(w as i64),
                ],
            };
            if w == 0 {
                seq![
                    ins,
                    SqlOpView {
                        statement: StatementKind::DeleteSigns,
                        args: seq![
                            SqlArgView::Int(xyz.0 as i64),
                            SqlArgView::Int(xyz.1 as i64),
                            SqlArgView::Int(xyz.2 as i64),
                        ],
                    },
                ]
            } else {
                seq![ins]
            }
        },
        StoreCommandView::SetSign { xyz, face, text } => {
            if text.len() == 0 {
                seq![
                    SqlOpView {
                        statement: StatementKind::DeleteIndividualSign,
                        args: seq![
                            SqlArgView::Int(xyz.0 as i64),
                            SqlArgView::Int(xyz.1 as i64),
                            SqlArgView::Int(xyz.2 as i64),
                            SqlArgView::Int(face as i64),
                        ],
                    },
                ]
            } else {
                seq![
                    SqlOpView {
                        statement: StatementKind::SetSign,
                        args: seq![
                            SqlArgView::Int(spec_chunked(xyz.0 as int) as i64),
                            SqlArgView::Int(spec_chunked(xyz.2 as int) as i64),
                            SqlArgView::Int(xyz.0 as i64),
                            SqlArgView::Int(xyz.1 as i64),
                            SqlArgView::Int(xyz.2 as i64),
                            SqlArgView::Int(face as i64),
                            SqlArgView::Text(text),
                        ],
                    },
                ]
            }
        },
    }
}

/// Plan the statement executions for one queued mutation.
pub fn plan_command(cmd: &StoreCommand) -> (ops: Vec<SqlOp>)
    ensures
        ops@.map_values(|o: SqlOp| o@) == spec_plan(cmd@),
{
    let mut ops: Vec<SqlOp> = Vec::new();
    match cmd {
        StoreCommand::SetBlock { xyz, pq, block } => {
            let mut args: Vec<SqlArg> = Vec::new();
            args.push(SqlArg::Int(pq.0 as i64));
            args.push(SqlArg::Int(pq.1 as i64));
            args.push(SqlArg::Int(xyz.0 as i64));
            args.push(SqlArg::Int(xyz.1 as i64));
            args.push(SqlArg::Int(xyz.2 as i64));
            args.push(SqlArg::Int(block.0 as i64));
            ops.push(SqlOp { statement: StatementKind::SetBlock, args });
            if block.is_air() {
                let mut dargs: Vec<SqlArg> = Vec::new();
                dargs.push(SqlArg::Int(xyz.0 as i64));
                dargs.push(SqlArg::Int(xyz.1 as i64));
                dargs.push(SqlArg::Int(xyz.2 as i64));
                ops.push(SqlOp { statement: StatementKind::DeleteSigns, args: dargs });
            }
            proof {
                assert(ops@.map_values(|o: SqlOp| o@) =~= spec_plan(cmd@)) by {
                    assert(ops@[0]@.args =~= spec_plan(cmd@)[0].args);
                    if block.0 == 0 {
                        assert(ops@[1]@.args =~= spec_plan(cmd@)[1].args);
                    }
                }
            }
        },
        StoreCommand::SetSign { xyz, face, sign } => {
            if sign.0.as_str().is_empty() {
                let mut dargs: Vec<SqlArg> = Vec::new();
                dargs.push(SqlArg::Int(xyz.0 as i64));
                dargs.push(SqlArg::Int(xyz.1 as i64));
                dargs.push(SqlArg::Int(xyz.2 as i64));
                dargs.push(SqlArg::Int(*face as i64));
                ops.push(SqlOp { statement: StatementKind::DeleteIndividualSign, args: dargs });
                proof {
                    assert(ops@.map_values(|o: SqlOp| o@) =~= spec_plan(cmd@)) by {
                        assert(ops@[0]@.args =~= spec_plan(cmd@)[0].args);
                    }
                }
            } else {
                let p = chunked(xyz.0);
                let q = chunked(xyz.2);
                let mut args: Vec<SqlArg> = Vec::new();
                args.push(SqlArg::Int(p as i64));
                args.push(SqlArg::Int(q as i64));
                args.push(SqlArg::Int(xyz.0 as i64));
                args.push(SqlArg::Int(xyz.1 as i64));
                args.push(SqlArg::Int(xyz.2 as i64));
                args.push(SqlArg::Int(*face as i64));
                args.push(SqlArg::Text(sign.0.clone()));
                ops.push(SqlOp { statement: StatementKind::SetSign, args });
                proof {
                    assert(ops@.map_values(|o: SqlOp| o@) =~= spec_plan(cmd@)) by {
                        assert(ops@[0]@.args =~= spec_plan(cmd@)[0].args);
                    }
                }
            }
        },
    }
    ops
}

/// The SQL text of each prepared statement.
pub open spec fn sql_text(k: StatementKind) -> Seq<char> {
    match k {
        StatementKind::SetBlock => "INSERT OR REPLACE INTO block (p, q, x, y, z, w) VALUES (?, ?, ?, ?, ?, ?);"@,
        StatementKind::SetSign => "INSERT OR REPLACE INTO sign (p, q, x, y, z, face, text) VALUES (?, ?, ?, ?, ?, ?, ?);"@,
        StatementKind::DeleteSigns => "DELETE FROM sign WHERE x = ? AND y = ? AND z = ?"@,
        StatementKind::DeleteIndividualSign => "DELETE FROM sign WHERE x = ? and y = ? and z = ? and face = ?"@,
    }
}

/// The SQL text to prepare for a statement kind.
pub fn statement_sql(k: StatementKind) -> (r: &'static str)
    ensures
        r@ == sql_text(k),
{
    match k {
        StatementKind::SetBlock => "INSERT OR REPLACE INTO block (p, q, x, y, z, w) VALUES (?, ?, ?, ?, ?, ?);",
        StatementKind::SetSign => "INSERT OR REPLACE INTO sign (p, q, x, y, z, face, text) VALUES (?, ?, ?, ?, ?, ?, ?);",
        StatementKind::DeleteSigns => "DELETE FROM sign WHERE x = ? AND y = ? AND z = ?",
        StatementKind::DeleteIndividualSign => "DELETE FROM sign WHERE x = ? and y = ? and z = ? and face = ?",
    }
}

/// The idempotent schema setup executed at startup.
pub fn initial_sql() -> (r: &'static str)
    ensures
        r@ == "CREATE TABLE IF NOT EXISTS block (p INT NOT NULL, q INT NOT NULL, x INT NOT NULL, y INT NOT NULL, z INT NOT NULL, w INT NOT NULL); CREATE UNIQUE INDEX IF NOT EXISTS block_pqxyz_idx ON block (p, q, x, y, z); CREATE TABLE IF NOT EXISTS sign (p INT NOT NULL, q INT NOT NULL, x INT NOT NULL, y INT NOT NULL, z INT NOT NULL, face INT NOT NULL, text TEXT NOT NULL); CREATE INDEX IF NOT EXISTS sign_pq_idx ON sign (p, q); CREATE UNIQUE INDEX IF NOT EXISTS sign_xyzface_idx ON sign (x, y, z, face); CREATE TABLE IF NOT EXISTS light (p INT NOT NULL, q INT NOT NULL, x INT NOT NULL, y INT NOT NULL, z INT NOT NULL, w INT NOT NULL); CREATE UNIQUE INDEX IF NOT EXISTS light_pqxyz_idx ON light (p, q, x, y, z);"@,
{
    "CREATE TABLE IF NOT EXISTS block (p INT NOT NULL, q INT NOT NULL, x INT NOT NULL, y INT NOT NULL, z INT NOT NULL, w INT NOT NULL); CREATE UNIQUE INDEX IF NOT EXISTS block_pqxyz_idx ON block (p, q, x, y, z); CREATE TABLE IF NOT EXISTS sign (p INT NOT NULL, q INT NOT NULL, x INT NOT NULL, y INT NOT NULL, z INT NOT NULL, face INT NOT NULL, text TEXT NOT NULL); CREATE INDEX IF NOT EXISTS sign_pq_idx ON sign (p, q); CREATE UNIQUE INDEX IF NOT EXISTS sign_xyzface_idx ON sign (x, y, z, face); CREATE TABLE IF NOT EXISTS light (p INT NOT NULL, q INT NOT NULL, x INT NOT NULL, y INT NOT NULL, z INT NOT NULL, w INT NOT NULL); CREATE UNIQUE INDEX IF NOT EXISTS light_pqxyz_idx ON light (p, q, x, y, z);"
}

/// The query that loads every stored block at startup.
pub fn load_blocks_sql() -> (r: &'static str)
    ensures
        r@ == "SELECT p, q, x, y, z, w FROM block;"@,
{
    "SELECT p, q, x, y, z, w FROM block;"
}

/// The query that loads every stored sign at startup.
pub fn load_signs_sql() -> (r: &'static str)
    ensures
        r@ == "SELECT p, q, x, y, z, face, text FROM sign;"@,
{
    "SELECT p, q, x, y, z, face, text FROM sign;"
}

} // verus!
