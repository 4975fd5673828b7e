//! The DAG's structural errors, its validator hook, previews and chains.

use kovanica::block::{Block, BlockId};
use kovanica::dag::{BlockPreview, BlockValidator, Dag, DagError};

fn new_dag(k: u16) -> (Dag, BlockId) {
    let genesis = Block::genesis(1, b"kovanica-genesis".to_vec());
    let id = genesis.id();
    (Dag::new(k, genesis), id)
}

struct RejectPayload(Vec<u8>);

impl BlockValidator for RejectPayload {
    fn verdict(&self, block: Block, _view: BlockPreview) -> Result<(), String> {
        if block.payload() == self.0.as_slice() {
            Err("forbidden payload".to_string())
        } else {
            Ok(())
        }
    }

    fn validate(&self, block: &Block, view: &BlockPreview) -> Result<(), String> {
        self.verdict(block.clone(), view.clone())
    }
}

#[test]
fn structural_errors_name_the_cause() {
    let (mut dag, genesis) = new_dag(3);
    let a_block = Block::new(vec![genesis], 1, b"a".to_vec());
    let a = dag.insert(a_block.clone()).unwrap();
    assert_eq!(dag.insert(a_block), Err(DagError::DuplicateBlock(a)));
    let phantom = Block::genesis(1, b"not-in-dag".to_vec()).id();
    assert_eq!(
        dag.insert(Block::new(vec![genesis, phantom], 1, b"x".to_vec())),
        Err(DagError::MissingParent(phantom))
    );
    let orphan = Block::new(vec![], 1, b"y".to_vec());
    let orphan_id = orphan.id();
    assert_eq!(dag.insert(orphan), Err(DagError::NoParents(orphan_id)));
    assert_eq!(dag.len(), 2);
    assert!(!dag.is_empty());
    assert!(dag.contains(&a));
    assert!(!dag.contains(&phantom));
}

#[test]
fn validator_rejects_and_leaves_the_dag_unchanged() {
    let genesis = Block::genesis(1, b"g".to_vec());
    let g = genesis.id();
    let mut dag = Dag::with_validator(3, genesis, Box::new(RejectPayload(b"bad".to_vec())));
    let bad = Block::new(vec![g], 1, b"bad".to_vec());
    let bad_id = bad.id();
    match dag.insert(bad) {
        Err(DagError::InvalidBlock { id, reason }) => {
            assert_eq!(id, bad_id);
            assert_eq!(reason, "forbidden payload");
        }
        other => panic!("expected a validator rejection, got {:?}", other),
    }
    assert_eq!(dag.len(), 1);
    let good = dag.insert(Block::new(vec![g], 1, b"good".to_vec())).unwrap();
    assert_eq!(dag.tips(), vec![good]);

    // Replacing the validator changes what is refused.
    dag.set_validator(Box::new(RejectPayload(b"good2".to_vec())));
    assert!(dag.insert(Block::new(vec![good], 1, b"good2".to_vec())).is_err());
    assert!(dag.insert(Block::new(vec![good], 1, b"bad".to_vec())).is_ok());
}

#[test]
fn preview_matches_insert() {
    let (mut dag, genesis) = new_dag(3);
    let a = dag.insert(Block::new(vec![genesis], 1, b"a".to_vec())).unwrap();
    let b = dag.insert(Block::new(vec![genesis], 1, b"b".to_vec())).unwrap();
    let block = Block::new(vec![a, b], 1, b"m".to_vec());
    let preview = dag.preview(&block).unwrap();
    assert!(preview.selected_parent == a || preview.selected_parent == b);
    let other = if preview.selected_parent == a { b } else { a };
    assert_eq!(preview.mergeset, vec![other]);
    // Preview does not insert.
    assert_eq!(dag.len(), 3);
    let m = dag.insert(block).unwrap();
    let gd = dag.ghostdag(&m).unwrap();
    assert_eq!(gd.selected_parent, Some(preview.selected_parent));
    assert_eq!(gd.mergeset_blues, vec![other]);
    // A preview of a block already present reports it.
    assert_eq!(
        dag.preview(&Block::new(vec![a, b], 1, b"m".to_vec())).unwrap_err(),
        DagError::DuplicateBlock(m)
    );
}

#[test]
fn ancestry_and_anticone() {
    let (mut dag, genesis) = new_dag(3);
    let a = dag.insert(Block::new(vec![genesis], 1, b"a".to_vec())).unwrap();
    let b = dag.insert(Block::new(vec![genesis], 1, b"b".to_vec())).unwrap();
    let c = dag.insert(Block::new(vec![a], 1, b"c".to_vec())).unwrap();
    assert!(dag.is_ancestor(&genesis, &c));
    assert!(dag.is_ancestor(&a, &c));
    assert!(!dag.is_ancestor(&c, &a));
    assert!(!dag.is_ancestor(&a, &a));
    assert!(!dag.is_ancestor(&b, &c));
    assert!(dag.in_anticone(&b, &c));
    assert!(dag.in_anticone(&c, &b));
    assert!(!dag.in_anticone(&a, &a));
    assert!(!dag.in_anticone(&a, &c));
    // past_size of c is |{genesis, a}|.
    assert_eq!(dag.ghostdag(&c).unwrap().blue_score, 2);
}

#[test]
fn blue_work_counts_the_past_not_the_block() {
    let genesis = Block::genesis(1, b"g".to_vec());
    let g = genesis.id();
    let mut dag = Dag::new(3, genesis);
    let a = dag.insert(Block::new(vec![g], 1, b"a".to_vec())).unwrap();
    let a2 = dag.insert(Block::new(vec![a], 1, b"a2".to_vec())).unwrap();
    let heavy = dag.insert(Block::new(vec![g], 10, b"heavy".to_vec())).unwrap();
    // A block's blue work is the work of its blue past, not its own: a2 has
    // 1 + 1 = 2, heavy only genesis's 1, so a2 is the selected parent.
    assert_eq!(dag.ghostdag(&a2).unwrap().blue_work, 2);
    assert_eq!(dag.ghostdag(&heavy).unwrap().blue_work, 1);
    let m = dag.insert(Block::new(vec![a2, heavy], 1, b"m".to_vec())).unwrap();
    let gd = dag.ghostdag(&m).unwrap();
    assert_eq!(gd.selected_parent, Some(a2));
    assert_eq!(gd.mergeset_blues, vec![heavy]);
    assert_eq!(gd.blue_work, 2 + 1 + 10);
    assert_eq!(dag.selected_chain(), vec![g, a, a2, m]);
    let order = dag.linearize();
    assert_eq!(order[0], g);
    assert_eq!(*order.last().unwrap(), m);
}
