//! The world store: overlap rule, sign semantics, the mutation queue and
//! its SQL planning.

use craft_server::persist::{plan_command, statement_sql, SqlArg, StatementKind};
use craft_server::world::{Block, Light, Sign, StoreCommand, World};

fn block_at(w: &World, pq: (i32, i32), l: (u8, u8, u8)) -> Option<i8> {
    let v = w.blocks_in_chunk(pq)?;
    for e in v.iter() {
        if e.0 == l {
            return Some(e.1 .0);
        }
    }
    None
}

#[test]
fn block_edit_with_overlap() {
    let mut w = World::new();
    let touched = w.apply_block_edit(31, 10, 5, 3);
    // The edit crosses the upper x boundary of chunk (0, 0).
    assert_eq!(touched, vec![(0, 0), (1, 0)]);
    assert_eq!(block_at(&w, (0, 0), (32, 10, 6)), Some(3));
    assert_eq!(block_at(&w, (1, 0), (0, 10, 6)), Some(-3));
}

#[test]
fn block_edit_interior_touches_one_chunk() {
    let mut w = World::new();
    let touched = w.apply_block_edit(16, 10, 16, 7);
    assert_eq!(touched, vec![(0, 0)]);
    assert_eq!(block_at(&w, (0, 0), (17, 10, 17)), Some(7));
    assert!(w.blocks_in_chunk((1, 0)).is_none());
}

#[test]
fn block_edit_corner_touches_four_chunks() {
    let mut w = World::new();
    let touched = w.apply_block_edit(0, 0, 0, 1);
    assert_eq!(touched, vec![(0, 0), (-1, -1), (-1, 0), (0, -1)]);
    assert_eq!(block_at(&w, (0, 0), (1, 0, 1)), Some(1));
    assert_eq!(block_at(&w, (-1, 0), (33, 0, 1)), Some(-1));
    assert_eq!(block_at(&w, (0, -1), (1, 0, 33)), Some(-1));
    assert_eq!(block_at(&w, (-1, -1), (33, 0, 33)), Some(-1));
}

#[test]
fn air_clears_signs_at_anchor() {
    let mut w = World::new();
    w.set_sign((4, 8, 4), (0, 0), 0, Sign(String::from("hi")));
    w.set_sign((4, 8, 4), (0, 0), 1, Sign(String::from("other face")));
    w.set_sign((5, 8, 4), (0, 0), 0, Sign(String::from("neighbour")));
    let _ = w.apply_block_edit(4, 8, 4, 0);
    let signs = w.signs_in_chunk((0, 0)).expect("chunk exists");
    for e in signs.iter() {
        assert!(!(e.0 .0 == 4 && e.0 .1 == 8 && e.0 .2 == 4));
    }
    assert!(signs.iter().any(|e| e.0 == (5, 8, 4, 0)));
}

#[test]
fn empty_sign_deletes_one_face() {
    let mut w = World::new();
    w.set_sign((4, 8, 4), (0, 0), 0, Sign(String::from("hi")));
    w.set_sign((4, 8, 4), (0, 0), 1, Sign(String::from("keep")));
    w.set_sign((4, 8, 4), (0, 0), 0, Sign(String::new()));
    let signs = w.signs_in_chunk((0, 0)).expect("chunk exists");
    assert!(!signs.iter().any(|e| e.0 == (4, 8, 4, 0)));
    assert!(signs.iter().any(|e| e.0 == (4, 8, 4, 1) && e.1 .0 == "keep"));
}

#[test]
fn sign_upsert_replaces_text() {
    let mut w = World::new();
    w.set_sign((1, 2, 3), (0, 0), 2, Sign(String::from("first")));
    w.set_sign((1, 2, 3), (0, 0), 2, Sign(String::from("second")));
    let signs = w.signs_in_chunk((0, 0)).expect("chunk exists");
    let texts: Vec<&str> = signs
        .iter()
        .filter(|e| e.0 == (1, 2, 3, 2))
        .map(|e| e.1 .0.as_str())
        .collect();
    assert_eq!(texts, vec!["second"]);
}

#[test]
fn lights_are_stored_in_memory_only() {
    let mut w = World::new();
    w.set_light((1, 2, 3), (0, 0), Light(12));
    assert_eq!(w.drain_pending().len(), 0);
}

#[test]
fn pending_queue_records_every_write() {
    let mut w = World::new();
    w.set_block((16, 10, 16), (0, 0), Block(7));
    w.set_sign((4, 8, 4), (0, 0), 0, Sign(String::from("hi")));
    let cmds = w.drain_pending();
    assert_eq!(cmds.len(), 2);
    match &cmds[0] {
        StoreCommand::SetBlock { xyz, pq, block } => {
            assert_eq!(*xyz, (16, 10, 16));
            assert_eq!(*pq, (0, 0));
            assert_eq!(block.0, 7);
        },
        other => panic!("unexpected: {:?}", plan_command(other).len()),
    }
    // Draining empties the queue.
    assert_eq!(w.drain_pending().len(), 0);
}

#[test]
fn load_does_not_queue() {
    let mut w = World::new();
    w.load_block((16, 10, 16), (0, 0), Block(7));
    w.load_sign((4, 8, 4), (0, 0), 0, Sign(String::from("hi")));
    assert_eq!(w.drain_pending().len(), 0);
    assert_eq!(block_at(&w, (0, 0), (17, 10, 17)), Some(7));
}

fn int_args(args: &[SqlArg]) -> Vec<i64> {
    args.iter()
        .filter_map(|a| match a {
            SqlArg::Int(v) => Some(*v),
            SqlArg::Text(_) => None,
        })
        .collect()
}

#[test]
fn plan_block_write() {
    let cmd = StoreCommand::SetBlock { xyz: (31, 10, 5), pq: (1, 0), block: Block(-3) };
    let ops = plan_command(&cmd);
    assert_eq!(ops.len(), 1);
    assert_eq!(ops[0].statement, StatementKind::SetBlock);
    assert_eq!(int_args(&ops[0].args), vec![1, 0, 31, 10, 5, -3]);
}

#[test]
fn plan_air_write_also_deletes_signs() {
    let cmd = StoreCommand::SetBlock { xyz: (4, 8, 4), pq: (0, 0), block: Block(0) };
    let ops = plan_command(&cmd);
    assert_eq!(ops.len(), 2);
    assert_eq!(ops[0].statement, StatementKind::SetBlock);
    assert_eq!(ops[1].statement, StatementKind::DeleteSigns);
    assert_eq!(int_args(&ops[1].args), vec![4, 8, 4]);
}

#[test]
fn plan_sign_write_and_delete() {
    let cmd = StoreCommand::SetSign { xyz: (33, 8, -1), face: 2, sign: Sign(String::from("hi")) };
    let ops = plan_command(&cmd);
    assert_eq!(ops.len(), 1);
    assert_eq!(ops[0].statement, StatementKind::SetSign);
    // The chunk key is recomputed from the coordinates: floor division.
    assert_eq!(int_args(&ops[0].args), vec![1, -1, 33, 8, -1, 2]);
    match ops[0].args.last().unwrap() {
        SqlArg::Text(t) => assert_eq!(t, "hi"),
        other => panic!("unexpected: {:?}", other),
    }

    let del = StoreCommand::SetSign { xyz: (4, 8, 4), face: 0, sign: Sign(String::new()) };
    let ops = plan_command(&del);
    assert_eq!(ops.len(), 1);
    assert_eq!(ops[0].statement, StatementKind::DeleteIndividualSign);
    assert_eq!(int_args(&ops[0].args), vec![4, 8, 4, 0]);
}

#[test]
fn statement_texts_bind_in_plan_order() {
    assert!(statement_sql(StatementKind::SetBlock).starts_with("INSERT OR REPLACE INTO block"));
    assert!(statement_sql(StatementKind::SetSign).starts_with("INSERT OR REPLACE INTO sign"));
    assert!(statement_sql(StatementKind::DeleteSigns).starts_with("DELETE FROM sign"));
    assert!(statement_sql(StatementKind::DeleteIndividualSign).contains("face = ?"));
}
